use vstd::prelude::*;
use crate::colour::{primary_name, PrimaryColor};
use crate::colour::PrimaryColor::{Blue, Red, Yellow};
use crate::expr::{app, chain_from, leaves, prim, Expr};

verus! {

/// The characters with the Unicode `White_Space` property.
pub open spec fn is_unicode_whitespace(c: char) -> bool {
    ||| '\u{9}' <= c <= '\u{d}'
    ||| c == ' '
    ||| c == '\u{85}'
    ||| c == '\u{a0}'
    ||| c == '\u{1680}'
    ||| '\u{2000}' <= c <= '\u{200a}'
    ||| c == '\u{2028}'
    ||| c == '\u{2029}'
    ||| c == '\u{202f}'
    ||| c == '\u{205f}'
    ||| c == '\u{3000}'
}

/// `s` without its whitespace characters.
pub open spec fn strip_whitespace(s: Seq<char>) -> Seq<char>
    decreases s.len(),
{
    if s.len() == 0 {
        s
    } else if is_unicode_whitespace(s.last()) {
        strip_whitespace(s.drop_last())
    } else {
        strip_whitespace(s.drop_last()).push(s.last())
    }
}

/// `char::is_whitespace` from std, which is documented to hold exactly of
/// the characters with the Unicode `White_Space` property.
#[verifier::external_body]
fn char_is_whitespace(c: char) -> (r: bool)
    ensures
        r == is_unicode_whitespace(c),
{
    c.is_whitespace()
}

/// The characters of `input` other than whitespace, in order.
fn non_whitespace_chars(input: &str) -> (r: Vec<char>)
    ensures
        r@ == strip_whitespace(input@),
{
    let mut out: Vec<char> = Vec::new();
    for c in it: input.chars()
        invariant
            it.seq() == input@,
            out@ == strip_whitespace(input@.take(it.index())),
    {
        assert(input@.take(it.index() + 1).drop_last() == input@.take(it.index()));
        if !char_is_whitespace(c) {
            out.push(c);
        }
    }
    assert(input@.take(input@.len() as int) == input@);
    out
}

/// Why a combinator string could not be read.
#[derive(Clone, Copy, Debug, PartialEq, Eq, Structural)]
pub enum SyntaxError {
    /// A parenthesised expression was not closed.
    MissingCloseParen,
    /// A character that is neither `S`, `K`, `I` nor a parenthesis.
    UnexpectedChar(char),
    /// The input ended where a term was expected.
    UnexpectedEnd,
}

/// The combinator letter of a primitive: Blue is `S`, Red is `K`, Yellow is
/// `I`.
pub open spec fn ski_letter(p: PrimaryColor) -> char {
    match p {
        Blue => 'S',
        Red => 'K',
        Yellow => 'I',
    }
}

/// Reads one term of `s` at `pos`: a letter, or a parenthesised
/// expression. On success, gives the term and the position after it.
pub open spec fn parse_term_spec(s: Seq<char>, pos: int) -> Result<(Expr, int), SyntaxError>
    decreases s.len() - pos, 0int,
{
    if pos < 0 || pos >= s.len() {
        Err(SyntaxError::UnexpectedEnd)
    } else if s[pos] == 'S' {
        Ok((prim(Blue), pos + 1))
    } else if s[pos] == 'K' {
        Ok((prim(Red), pos + 1))
    } else if s[pos] == 'I' {
        Ok((prim(Yellow), pos + 1))
    } else if s[pos] == '(' {
        match parse_expr_spec(s, pos + 1) {
            Ok((e, r)) => if 0 <= r < s.len() && s[r] == ')' {
                Ok((e, r + 1))
            } else {
                Err(SyntaxError::MissingCloseParen)
            },
            Err(err) => Err(err),
        }
    } else {
        Err(SyntaxError::UnexpectedChar(s[pos]))
    }
}

/// Reads an expression of `s` at `pos`: one or more terms, applied left to
/// right, up to the end of the input or a closing parenthesis.
pub open spec fn parse_expr_spec(s: Seq<char>, pos: int) -> Result<(Expr, int), SyntaxError>
    decreases s.len() - pos, 2int,
{
    match parse_term_spec(s, pos) {
        Ok((t, r)) => if pos < r <= s.len() {
            parse_tail_spec(s, t, r)
        } else {
            Err(SyntaxError::UnexpectedEnd)
        },
        Err(err) => Err(err),
    }
}

/// Applies `acc` to the further terms of `s` from `pos`, up to the end of the
/// input or a closing parenthesis.
pub open spec fn parse_tail_spec(s: Seq<char>, acc: Expr, pos: int) -> Result<(Expr, int), SyntaxError>
    decreases s.len() - pos, 1int,
{
    if pos < 0 || pos >= s.len() || s[pos] == ')' {
        Ok((acc, pos))
    } else {
        match parse_term_spec(s, pos) {
            Ok((t, r)) => if pos < r <= s.len() {
                parse_tail_spec(s, app(acc, t), r)
            } else {
                Err(SyntaxError::UnexpectedEnd)
            },
            Err(err) => Err(err),
        }
    }
}

/// The text of a syntax error.
pub open spec fn error_message(err: SyntaxError) -> Seq<char> {
    match err {
        SyntaxError::MissingCloseParen => "Expected closing ')'"@,
        SyntaxError::UnexpectedChar(c) => "Unexpected character '"@ + seq![c] + "'"@,
        SyntaxError::UnexpectedEnd => "Unexpected end of input"@,
    }
}

/// The text of `format!("{:?}", chars)` for a list of characters, as std's
/// `Debug` writes it.
pub uninterp spec fn debug_chars(chars: Seq<char>) -> Seq<char>;

/// The text of the error for input left over after a complete expression.
pub open spec fn trailing_message(rest: Seq<char>) -> Seq<char> {
    "Unexpected characters after expression: "@ + debug_chars(rest)
}

/// Reads a whole combinator string: whitespace is ignored, and the
/// expression must use up the rest of the input.
pub open spec fn parse_ski_spec(input: Seq<char>) -> Result<Expr, Seq<char>> {
    let cs = strip_whitespace(input);
    match parse_expr_spec(cs, 0) {
        Ok((e, r)) => if r == cs.len() {
            Ok(e)
        } else {
            Err(trailing_message(cs.subrange(r, cs.len() as int)))
        },
        Err(err) => Err(error_message(err)),
    }
}

/// The parse result with the position as a mathematical integer.
pub open spec fn at_int(r: Result<(Expr, usize), SyntaxError>) -> Result<(Expr, int), SyntaxError> {
    match r {
        Ok((e, p)) => Ok((e, p as int)),
        Err(err) => Err(err),
    }
}

/// Reads an expression of `input` at `pos` (see `parse_expr_spec`).
fn parse_expr_chars(input: &Vec<char>, pos: usize) -> (r: Result<(Expr, usize), SyntaxError>)
    requires
        pos <= input@.len(),
    ensures
        at_int(r) == parse_expr_spec(input@, pos as int),
        r matches Ok((_, p)) ==> pos < p <= input@.len(),
    decreases input@.len() - pos, 2int,
{
    let (first, mut rest) = match parse_term_chars(input, pos) {
        Ok(v) => v,
        Err(err) => return Err(err),
    };
    let mut acc = first;
    while rest < input.len() && input[rest] != ')'
        invariant
            pos < rest <= input@.len(),
            parse_expr_spec(input@, pos as int) == parse_tail_spec(input@, acc, rest as int),
        decreases input@.len() - rest,
    {
        match parse_term_chars(input, rest) {
            Ok((next, new_rest)) => {
                acc = Expr::Apply(Box::new(acc), Box::new(next));
                rest = new_rest;
            },
            Err(err) => return Err(err),
        }
    }
    Ok((acc, rest))
}

/// Reads one term of `input` at `pos` (see `parse_term_spec`).
fn parse_term_chars(input: &Vec<char>, pos: usize) -> (r: Result<(Expr, usize), SyntaxError>)
    requires
        pos <= input@.len(),
    ensures
        at_int(r) == parse_term_spec(input@, pos as int),
        r matches Ok((_, p)) ==> pos < p <= input@.len(),
    decreases input@.len() - pos, 0int,
{
    if pos >= input.len() {
        return Err(SyntaxError::UnexpectedEnd);
    }
    let c = input[pos];
    if c == 'S' {
        Ok((Expr::Prim(PrimaryColor::Blue), pos + 1))
    } else if c == 'K' {
        Ok((Expr::Prim(PrimaryColor::Red), pos + 1))
    } else if c == 'I' {
        Ok((Expr::Prim(PrimaryColor::Yellow), pos + 1))
    } else if c == '(' {
        match parse_expr_chars(input, pos + 1) {
            Ok((e, rest)) => {
                if rest < input.len() && input[rest] == ')' {
                    Ok((e, rest + 1))
                } else {
                    Err(SyntaxError::MissingCloseParen)
                }
            },
            Err(err) => Err(err),
        }
    } else {
        Err(SyntaxError::UnexpectedChar(c))
    }
}

/// std's `Debug` formatting of a list of characters, `format!("{:?}", ..)`;
/// what it writes is named `debug_chars` and not spelled out here.
#[verifier::external_body]
fn debug_list(chars: &Vec<char>) -> (r: String)
    ensures
        r@ == debug_chars(chars@),
{
    format!("{:?}", chars)
}

/// `String::push` from std: appends one character.
#[verifier::external_body]
pub(crate) fn push_char(s: &mut String, c: char)
    ensures
        final(s)@ == old(s)@.push(c),
{
    s.push(c)
}

/// The text of a syntax error (see `error_message`).
fn syntax_error_message(err: SyntaxError) -> (r: String)
    ensures
        r@ == error_message(err),
{
    match err {
        SyntaxError::MissingCloseParen => String::from_str("Expected closing ')'"),
        SyntaxError::UnexpectedChar(c) => {
            let mut m = String::from_str("Unexpected character '");
            push_char(&mut m, c);
            m.append("'");
            m
        },
        SyntaxError::UnexpectedEnd => String::from_str("Unexpected end of input"),
    }
}

/// Parses a string of `S`, `K`, `I` and parentheses into an expression, `S`
/// standing for Blue, `K` for Red and `I` for Yellow. Whitespace is ignored
/// and application is left-associative:
/// `expr := term+`, `term := 'S' | 'K' | 'I' | '(' expr ')'`.
pub fn parse_ski(input: &str) -> (r: Result<Expr, String>)
    ensures
        r is Ok <==> parse_ski_spec(input@) is Ok,
        r matches Ok(e) ==> parse_ski_spec(input@) == Ok::<Expr, Seq<char>>(e),
        r matches Err(m) ==> parse_ski_spec(input@) == Err::<Expr, Seq<char>>(m@),
{
    let chars = non_whitespace_chars(input);
    match parse_expr_chars(&chars, 0) {
        Ok((expr, rest)) => {
            if rest == chars.len() {
                Ok(expr)
            } else {
                let mut left: Vec<char> = Vec::new();
                let mut i = rest;
                while i < chars.len()
                    invariant
                        rest <= i <= chars@.len(),
                        left@ == chars@.subrange(rest as int, i as int),
                    decreases chars@.len() - i,
                {
                    left.push(chars[i]);
                    i = i + 1;
                }
                let mut m = String::from_str("Unexpected characters after expression: ");
                let listed = debug_list(&left);
                m.append(listed.as_str());
                Err(m)
            }
        },
        Err(err) => Err(syntax_error_message(err)),
    }
}

/// The combinator notation of an expression: application is written by
/// juxtaposition, and an argument that is itself an application is put in
/// parentheses.
pub open spec fn ski_string(e: Expr) -> Seq<char>
    decreases e,
{
    match e {
        Expr::Prim(p) => seq![ski_letter(p)],
        Expr::Apply(f, x) => ski_string(*f) + match *x {
            Expr::Prim(p) => seq![ski_letter(p)],
            Expr::Apply(_, _) => seq!['('] + ski_string(*x) + seq![')'],
        },
    }
}

/// The notation of an expression in argument position.
pub open spec fn ski_argument(e: Expr) -> Seq<char> {
    match e {
        Expr::Prim(p) => seq![ski_letter(p)],
        Expr::Apply(_, _) => seq!['('] + ski_string(e) + seq![')'],
    }
}

/// The Colourful notation of an expression: colour names, with every
/// application written `(f x)`.
pub open spec fn colourful_string(e: Expr) -> Seq<char>
    decreases e,
{
    match e {
        Expr::Prim(p) => primary_name(p),
        Expr::Apply(f, x) => "("@ + colourful_string(*f) + " "@ + colourful_string(*x) + ")"@,
    }
}

/// The letter of a primitive as a string.
fn ski_letter_string(p: PrimaryColor) -> (r: String)
    ensures
        r@ == seq![ski_letter(p)],
{
    proof {
        reveal_strlit("K");
        reveal_strlit("I");
        reveal_strlit("S");
    }
    match p {
        PrimaryColor::Red => String::from_str("K"),
        PrimaryColor::Yellow => String::from_str("I"),
        PrimaryColor::Blue => String::from_str("S"),
    }
}

/// Writes an expression in combinator notation (see `ski_string`).
pub fn to_ski_string(expr: &Expr) -> (r: String)
    ensures
        r@ == ski_string(*expr),
    decreases expr,
{
    match expr {
        Expr::Prim(p) => ski_letter_string(*p),
        Expr::Apply(f, x) => {
            let mut out = to_ski_string(f);
            match &**x {
                Expr::Prim(p) => {
                    let letter = ski_letter_string(*p);
                    out.append(letter.as_str());
                },
                Expr::Apply(_, _) => {
                    let inner = to_ski_string(x);
                    proof {
                        reveal_strlit("(");
                        reveal_strlit(")");
                    }
                    out.append("(");
                    out.append(inner.as_str());
                    out.append(")");
                },
            }
            out
        },
    }
}

/// Writes an expression in Colourful notation (see `colourful_string`).
pub fn to_colourful(expr: &Expr) -> (r: String)
    ensures
        r@ == colourful_string(*expr),
    decreases expr,
{
    match expr {
        Expr::Prim(c) => match c {
            PrimaryColor::Red => String::from_str("red"),
            PrimaryColor::Blue => String::from_str("blue"),
            PrimaryColor::Yellow => String::from_str("yellow"),
        },
        Expr::Apply(f, x) => {
            let left = to_colourful(f);
            let right = to_colourful(x);
            let mut out = String::from_str("(");
            out.append(left.as_str());
            out.append(" ");
            out.append(right.as_str());
            out.append(")");
            out
        },
    }
}

/// A character that the combinator notation uses.
pub open spec fn is_ski_char(c: char) -> bool {
    c == 'S' || c == 'K' || c == 'I' || c == '(' || c == ')'
}

/// Splits a match of `u + v` in `s` at `pos` into a match of `u` followed by
/// one of `v`.
proof fn lemma_split_match(s: Seq<char>, pos: int, u: Seq<char>, v: Seq<char>)
    requires
        0 <= pos,
        pos + u.len() + v.len() <= s.len(),
        s.subrange(pos, pos + u.len() + v.len()) == u + v,
    ensures
        s.subrange(pos, pos + u.len()) == u,
        s.subrange(pos + u.len(), pos + u.len() + v.len()) == v,
{
    let w = s.subrange(pos, pos + u.len() + v.len());
    assert forall|i: int| 0 <= i < u.len() implies #[trigger] s[pos + i] == u[i] by {
        assert(w[i] == s[pos + i]);
        assert(w[i] == (u + v)[i]);
    }
    assert forall|i: int| 0 <= i < v.len() implies #[trigger] s[pos + u.len() + i] == v[i] by {
        assert(w[u.len() + i] == s[pos + u.len() + i]);
        assert(w[u.len() + i] == (u + v)[u.len() + i]);
    }
    assert(s.subrange(pos, pos + u.len()) =~= u);
    let t = s.subrange(pos + u.len(), pos + u.len() + v.len());
    assert forall|j: int| 0 <= j < v.len() implies #[trigger] t[j] == v[j] by {
        assert(t[j] == s[pos + u.len() + j]);
    }
    assert(t =~= v);
}

/// A term written in argument position is read back as that term.
proof fn lemma_parse_argument(a: Expr, s: Seq<char>, pos: int)
    requires
        0 <= pos,
        pos + ski_argument(a).len() <= s.len(),
        s.subrange(pos, pos + ski_argument(a).len()) == ski_argument(a),
    ensures
        parse_term_spec(s, pos) == Ok::<(Expr, int), SyntaxError>((a, pos + ski_argument(a).len())),
    decreases a, 2int,
{
    assert(s[pos] == s.subrange(pos, pos + ski_argument(a).len())[0]);
    match a {
        Expr::Prim(p) => {},
        Expr::Apply(_, _) => {
            let inner = ski_string(a);
            assert(ski_argument(a) =~= seq!['('] + (inner + seq![')']));
            lemma_split_match(s, pos, seq!['('], inner + seq![')']);
            lemma_split_match(s, pos + 1, inner, seq![')']);
            let next = pos + 1 + inner.len();
            assert(s[next] == s.subrange(next, next + 1)[0]);
            lemma_parse_whole(a, s, pos + 1);
        },
    }
}

/// An expression written at `pos` and followed by the end of the input or a
/// closing parenthesis is read back as that expression.
proof fn lemma_parse_whole(e: Expr, s: Seq<char>, pos: int)
    requires
        0 <= pos,
        pos + ski_string(e).len() <= s.len(),
        s.subrange(pos, pos + ski_string(e).len()) == ski_string(e),
        pos + ski_string(e).len() == s.len() || s[pos + ski_string(e).len()] == ')',
    ensures
        parse_expr_spec(s, pos) == Ok::<(Expr, int), SyntaxError>((e, pos + ski_string(e).len())),
    decreases e, 1int,
{
    lemma_parse_prefix(e, s, pos);
}

/// Reading an expression written at `pos` arrives, after its last term, at
/// the position where it ends.
proof fn lemma_parse_prefix(e: Expr, s: Seq<char>, pos: int)
    requires
        0 <= pos,
        pos + ski_string(e).len() <= s.len(),
        s.subrange(pos, pos + ski_string(e).len()) == ski_string(e),
    ensures
        parse_expr_spec(s, pos) == parse_tail_spec(s, e, pos + ski_string(e).len()),
    decreases e, 0int,
{
    match e {
        Expr::Prim(p) => {
            assert(s[pos] == s.subrange(pos, pos + 1)[0]);
        },
        Expr::Apply(f, x) => {
            let fs = ski_string(*f);
            let xs = ski_argument(*x);
            assert(ski_string(e) == fs + xs);
            lemma_split_match(s, pos, fs, xs);
            lemma_parse_prefix(*f, s, pos);
            let nf = pos + fs.len();
            lemma_parse_argument(*x, s, nf);
            assert(s[nf] == s.subrange(nf, nf + xs.len())[0]);
            assert(app(*f, *x) == e);
        },
    }
}

/// Every character of the combinator notation is a letter or a parenthesis.
proof fn lemma_ski_chars(e: Expr)
    ensures
        forall|i: int| 0 <= i < ski_string(e).len() ==> is_ski_char(#[trigger] ski_string(e)[i]),
    decreases e,
{
    match e {
        Expr::Prim(p) => {},
        Expr::Apply(f, x) => {
            lemma_ski_chars(*f);
            lemma_ski_chars(*x);
            let fs = ski_string(*f);
            let xs = ski_argument(*x);
            assert(ski_string(e) == fs + xs);
            assert forall|i: int| 0 <= i < xs.len() implies is_ski_char(#[trigger] xs[i]) by {
                match *x {
                    Expr::Prim(_) => {},
                    Expr::Apply(_, _) => {
                        let xi = ski_string(*x);
                        assert(xs == seq!['('] + xi + seq![')']);
                        if 1 <= i < 1 + xi.len() {
                            assert(xs[i] == xi[i - 1]);
                        }
                    },
                }
            }
            assert forall|i: int| 0 <= i < ski_string(e).len() implies is_ski_char(
                #[trigger] ski_string(e)[i],
            ) by {
                if i < fs.len() {
                    assert(ski_string(e)[i] == fs[i]);
                } else {
                    assert(ski_string(e)[i] == xs[i - fs.len()]);
                }
            }
        },
    }
}

/// A string with no whitespace is left as it is by `strip_whitespace`.
proof fn lemma_strip_without_whitespace(t: Seq<char>)
    requires
        forall|i: int| 0 <= i < t.len() ==> !is_unicode_whitespace(#[trigger] t[i]),
    ensures
        strip_whitespace(t) == t,
    decreases t.len(),
{
    if t.len() > 0 {
        assert(!is_unicode_whitespace(t[t.len() - 1]));
        lemma_strip_without_whitespace(t.drop_last());
        assert(t.drop_last().push(t.last()) =~= t);
    }
}

/// Printing and parsing are inverse: the combinator notation of any
/// expression parses back to that expression.
pub proof fn lemma_parse_ski_inverts_to_ski_string(e: Expr)
    ensures
        parse_ski_spec(ski_string(e)) == Ok::<Expr, Seq<char>>(e),
{
    let t = ski_string(e);
    lemma_ski_chars(e);
    assert forall|i: int| 0 <= i < t.len() implies !is_unicode_whitespace(#[trigger] t[i]) by {
        assert(is_ski_char(t[i]));
    }
    lemma_strip_without_whitespace(t);
    assert(t.subrange(0, t.len() as int) =~= t);
    lemma_parse_whole(e, t, 0);
}

/// The notation of a list of arguments, one after the other.
pub open spec fn ski_arguments(xs: Seq<Expr>) -> Seq<char>
    decreases xs.len(),
{
    if xs.len() == 0 {
        Seq::empty()
    } else {
        ski_argument(xs[0]) + ski_arguments(xs.drop_first())
    }
}

/// Every character of an argument's notation is a letter or a parenthesis,
/// and its first one is not a closing parenthesis.
proof fn lemma_ski_argument_chars(x: Expr)
    ensures
        ski_argument(x).len() > 0,
        ski_argument(x)[0] != ')',
        forall|i: int| 0 <= i < ski_argument(x).len() ==> is_ski_char(#[trigger] ski_argument(x)[i]),
{
    lemma_ski_chars(x);
    match x {
        Expr::Prim(_) => {},
        Expr::Apply(_, _) => {
            let xi = ski_string(x);
            let xs = ski_argument(x);
            assert forall|i: int| 0 <= i < xs.len() implies is_ski_char(#[trigger] xs[i]) by {
                if 1 <= i < 1 + xi.len() {
                    assert(xs[i] == xi[i - 1]);
                }
            }
        },
    }
}

/// Every character of a list of arguments' notation is a letter or a
/// parenthesis.
proof fn lemma_ski_arguments_chars(xs: Seq<Expr>)
    ensures
        forall|i: int| 0 <= i < ski_arguments(xs).len() ==> is_ski_char(#[trigger] ski_arguments(xs)[i]),
    decreases xs.len(),
{
    if xs.len() > 0 {
        lemma_ski_argument_chars(xs[0]);
        lemma_ski_arguments_chars(xs.drop_first());
        let a = ski_argument(xs[0]);
        let b = ski_arguments(xs.drop_first());
        assert forall|i: int| 0 <= i < (a + b).len() implies is_ski_char(#[trigger] (a + b)[i]) by {
            if i < a.len() {
                assert((a + b)[i] == a[i]);
            } else {
                assert((a + b)[i] == b[i - a.len()]);
            }
        }
    }
}

/// After a head already read, a list of arguments written at `pos` and
/// followed by the end of the input or a closing parenthesis is folded onto
/// the head, left to right.
proof fn lemma_parse_arguments(s: Seq<char>, acc: Expr, xs: Seq<Expr>, pos: int)
    requires
        0 <= pos,
        pos + ski_arguments(xs).len() <= s.len(),
        s.subrange(pos, pos + ski_arguments(xs).len()) == ski_arguments(xs),
        pos + ski_arguments(xs).len() == s.len() || s[pos + ski_arguments(xs).len()] == ')',
    ensures
        parse_tail_spec(s, acc, pos) == Ok::<(Expr, int), SyntaxError>(
            (chain_from(acc, xs), pos + ski_arguments(xs).len()),
        ),
    decreases xs.len(),
{
    if xs.len() > 0 {
        let a = ski_argument(xs[0]);
        let b = ski_arguments(xs.drop_first());
        lemma_split_match(s, pos, a, b);
        lemma_ski_argument_chars(xs[0]);
        assert(s[pos] == s.subrange(pos, pos + a.len())[0]);
        lemma_parse_argument(xs[0], s, pos);
        lemma_parse_arguments(s, app(acc, xs[0]), xs.drop_first(), pos + a.len());
    }
}

/// A parenthesised head is read like any other term: `(f)` followed by
/// arguments `x1 ... xk` parses to the left-associated application
/// `(f x1) ... xk`, exactly as `f x1 ... xk` does. So `(KI)SK` parses like
/// `KISK`.
pub proof fn lemma_parenthesised_head_is_a_term(f: Expr, xs: Seq<Expr>)
    ensures
        parse_ski_spec(seq!['('] + ski_string(f) + seq![')'] + ski_arguments(xs)) == Ok::<
            Expr,
            Seq<char>,
        >(chain_from(f, xs)),
        parse_ski_spec(ski_string(f) + ski_arguments(xs)) == Ok::<Expr, Seq<char>>(
            chain_from(f, xs),
        ),
{
    let fs = ski_string(f);
    let args = ski_arguments(xs);
    lemma_ski_chars(f);
    lemma_ski_arguments_chars(xs);
    // with parentheses
    let t = seq!['('] + fs + seq![')'] + args;
    assert forall|i: int| 0 <= i < t.len() implies !is_unicode_whitespace(#[trigger] t[i]) by {
        if i == 0 {
        } else if i < 1 + fs.len() {
            assert(t[i] == fs[i - 1]);
            assert(is_ski_char(fs[i - 1]));
        } else if i == 1 + fs.len() {
        } else {
            assert(t[i] == args[i - 2 - fs.len()]);
            assert(is_ski_char(args[i - 2 - fs.len()]));
        }
    }
    lemma_strip_without_whitespace(t);
    assert(t.subrange(1, 1 + fs.len() as int) =~= fs);
    assert(t[1 + fs.len() as int] == ')');
    lemma_parse_whole(f, t, 1);
    assert(t.subrange(2 + fs.len() as int, t.len() as int) =~= args);
    lemma_parse_arguments(t, f, xs, 2 + fs.len() as int);
    assert(t[0] == '(');
    // without parentheses
    let u = fs + args;
    assert forall|i: int| 0 <= i < u.len() implies !is_unicode_whitespace(#[trigger] u[i]) by {
        if i < fs.len() {
            assert(u[i] == fs[i]);
            assert(is_ski_char(fs[i]));
        } else {
            assert(u[i] == args[i - fs.len()]);
            assert(is_ski_char(args[i - fs.len()]));
        }
    }
    lemma_strip_without_whitespace(u);
    assert(u.subrange(0, fs.len() as int) =~= fs);
    lemma_parse_prefix(f, u, 0);
    assert(u.subrange(fs.len() as int, u.len() as int) =~= args);
    lemma_parse_arguments(u, f, xs, fs.len() as int);
}

/// The names of a list of primitive colours, separated by single spaces.
pub open spec fn names_spaced(ps: Seq<PrimaryColor>) -> Seq<char>
    decreases ps.len(),
{
    if ps.len() == 0 {
        Seq::empty()
    } else if ps.len() == 1 {
        primary_name(ps[0])
    } else {
        names_spaced(ps.drop_last()) + " "@ + primary_name(ps.last())
    }
}

/// `s` without its parentheses.
pub open spec fn without_parens(s: Seq<char>) -> Seq<char> {
    s.filter(|c: char| c != '(' && c != ')')
}

/// Joining two non-empty lists of colours joins their spaced names with a
/// space.
proof fn lemma_names_spaced_concat(a: Seq<PrimaryColor>, b: Seq<PrimaryColor>)
    requires
        a.len() > 0,
        b.len() > 0,
    ensures
        names_spaced(a + b) == names_spaced(a) + " "@ + names_spaced(b),
    decreases b.len(),
{
    assert((a + b).last() == b.last());
    assert((a + b).drop_last() =~= a + b.drop_last());
    if b.len() == 1 {
        assert(a + b.drop_last() =~= a);
    } else {
        lemma_names_spaced_concat(a, b.drop_last());
        assert(names_spaced(a) + " "@ + names_spaced(b.drop_last()) + " "@ + primary_name(b.last())
            =~= names_spaced(a) + " "@ + (names_spaced(b.drop_last()) + " "@ + primary_name(
            b.last(),
        )));
    }
}

/// A string with no parentheses keeps all of its characters.
proof fn lemma_without_parens_keeps(t: Seq<char>)
    requires
        forall|i: int| 0 <= i < t.len() ==> t[i] != '(' && t[i] != ')',
    ensures
        without_parens(t) == t,
    decreases t.len(),
{
    let pred = |c: char| c != '(' && c != ')';
    if t.len() == 0 {
        reveal(Seq::filter);
    } else {
        lemma_without_parens_keeps(t.drop_last());
        t.drop_last().lemma_filter_push(t.last(), pred);
        assert(t.drop_last().push(t.last()) =~= t);
    }
}

/// The Colourful notation spells out the leaves in order: with its
/// parentheses taken out, it is the names of the expression's primitive
/// colours, left to right, separated by single spaces.
pub proof fn lemma_colourful_string_spells_leaves(e: Expr)
    ensures
        without_parens(colourful_string(e)) == names_spaced(leaves(e)),
        leaves(e).len() > 0,
    decreases e,
{
    let pred = |c: char| c != '(' && c != ')';
    reveal_strlit("red");
    reveal_strlit("blue");
    reveal_strlit("yellow");
    reveal_strlit(" ");
    reveal_strlit("(");
    reveal_strlit(")");
    match e {
        Expr::Prim(p) => {
            lemma_without_parens_keeps(primary_name(p));
        },
        Expr::Apply(f, x) => {
            lemma_colourful_string_spells_leaves(*f);
            lemma_colourful_string_spells_leaves(*x);
            let a = colourful_string(*f);
            let b = colourful_string(*x);
            let whole = "("@ + a + " "@ + b + ")"@;
            assert(colourful_string(e) == whole);
            Seq::filter_distributes_over_add("("@ + a + " "@ + b, ")"@, pred);
            Seq::filter_distributes_over_add("("@ + a + " "@, b, pred);
            Seq::filter_distributes_over_add("("@ + a, " "@, pred);
            Seq::filter_distributes_over_add("("@, a, pred);
            reveal(Seq::filter);
            let empty = Seq::<char>::empty();
            assert(empty.filter(pred) =~= empty);
            empty.lemma_filter_push('(', pred);
            empty.lemma_filter_push(')', pred);
            assert("("@ =~= empty.push('('));
            assert(")"@ =~= empty.push(')'));
            lemma_without_parens_keeps(" "@);
            lemma_names_spaced_concat(leaves(*f), leaves(*x));
            assert(without_parens(whole) =~= without_parens(a) + " "@ + without_parens(b));
        },
    }
}

/// All characters of `s` from `lo` up to `hi` are letters or parentheses.
pub open spec fn ski_chars_between(s: Seq<char>, lo: int, hi: int) -> bool {
    forall|i: int| lo <= i < hi ==> is_ski_char(#[trigger] s[i])
}

/// A term that is read successfully consists of letters and parentheses.
proof fn lemma_term_reads_ski_chars(s: Seq<char>, pos: int)
    ensures
        parse_term_spec(s, pos) matches Ok((_, r)) ==> ski_chars_between(s, pos, r),
    decreases s.len() - pos, 0int,
{
    if 0 <= pos < s.len() && s[pos] == '(' {
        lemma_expr_reads_ski_chars(s, pos + 1);
    }
}

/// An expression that is read successfully consists of letters and
/// parentheses.
proof fn lemma_expr_reads_ski_chars(s: Seq<char>, pos: int)
    ensures
        parse_expr_spec(s, pos) matches Ok((_, r)) ==> ski_chars_between(s, pos, r),
    decreases s.len() - pos, 2int,
{
    lemma_term_reads_ski_chars(s, pos);
    if let Ok((t, r)) = parse_term_spec(s, pos) {
        if pos < r <= s.len() {
            lemma_tail_reads_ski_chars(s, t, r);
        }
    }
}

/// The further terms read after a head consist of letters and parentheses.
proof fn lemma_tail_reads_ski_chars(s: Seq<char>, acc: Expr, pos: int)
    ensures
        parse_tail_spec(s, acc, pos) matches Ok((_, r)) ==> ski_chars_between(s, pos, r),
    decreases s.len() - pos, 1int,
{
    if !(pos < 0 || pos >= s.len() || s[pos] == ')') {
        lemma_term_reads_ski_chars(s, pos);
        if let Ok((t, r)) = parse_term_spec(s, pos) {
            if pos < r <= s.len() {
                lemma_tail_reads_ski_chars(s, app(acc, t), r);
            }
        }
    }
}

/// Every character of the input that is not whitespace survives stripping.
proof fn lemma_strip_keeps(s: Seq<char>, i: int)
    requires
        0 <= i < s.len(),
        !is_unicode_whitespace(s[i]),
    ensures
        strip_whitespace(s).contains(s[i]),
    decreases s.len(),
{
    if i < s.len() - 1 {
        lemma_strip_keeps(s.drop_last(), i);
        let t = strip_whitespace(s.drop_last());
        let k = choose|k: int| 0 <= k < t.len() && t[k] == s[i];
        if !is_unicode_whitespace(s.last()) {
            assert(t.push(s.last())[k] == s[i]);
        }
    } else {
        let t = strip_whitespace(s.drop_last());
        assert(t.push(s.last())[t.len() as int] == s[i]);
    }
}

/// Only letters, parentheses and whitespace are accepted: when parsing
/// succeeds, every character left after stripping whitespace is `S`, `K`,
/// `I`, `(` or `)`; so any other character makes parsing fail.
pub proof fn lemma_parse_ski_accepts_only_ski_chars(input: Seq<char>)
    ensures
        parse_ski_spec(input) is Ok ==> ski_chars_between(
            strip_whitespace(input),
            0,
            strip_whitespace(input).len() as int,
        ),
        forall|i: int|
            0 <= i < input.len() && !is_unicode_whitespace(#[trigger] input[i]) && !is_ski_char(
                input[i],
            ) ==> parse_ski_spec(input) is Err,
{
    let cs = strip_whitespace(input);
    lemma_expr_reads_ski_chars(cs, 0);
    assert forall|i: int|
        0 <= i < input.len() && !is_unicode_whitespace(#[trigger] input[i]) && !is_ski_char(
            input[i],
        ) implies parse_ski_spec(input) is Err by {
        lemma_strip_keeps(input, i);
        let k = choose|k: int| 0 <= k < cs.len() && cs[k] == input[i];
        if parse_ski_spec(input) is Ok {
            assert(is_ski_char(cs[k]));
        }
    }
}

} // verus!
