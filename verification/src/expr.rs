use vstd::prelude::*;
use crate::colour::{Color, PrimaryColor};
use crate::colour::PrimaryColor::{Blue, Red, Yellow};

verus! {

/// An expression of the language: a primitive colour, or the application of
/// one expression to another.
#[derive(Debug)]
pub enum Expr {
    Prim(PrimaryColor),
    Apply(Box<Expr>, Box<Expr>),
}

impl Clone for Expr {
    /// A deep copy of the expression.
    fn clone(&self) -> (r: Self)
        ensures
            r == *self,
        decreases self,
    {
        match self {
            Expr::Prim(p) => Expr::Prim(*p),
            Expr::Apply(f, x) => Expr::Apply(Box::new((**f).clone()), Box::new((**x).clone())),
        }
    }
}

/// `f x`, the application of `f` to `x`.
pub open spec fn app(f: Expr, x: Expr) -> Expr {
    Expr::Apply(Box::new(f), Box::new(x))
}

/// A primitive expression.
pub open spec fn prim(p: PrimaryColor) -> Expr {
    Expr::Prim(p)
}

/// Folds `rest` onto `acc` by left-associated application:
/// `acc r0 r1 ... rn`.
pub open spec fn chain_from(acc: Expr, rest: Seq<Expr>) -> Expr
    decreases rest.len(),
{
    if rest.len() == 0 {
        acc
    } else {
        chain_from(app(acc, rest[0]), rest.drop_first())
    }
}

/// Left-associated application of a non-empty list of expressions:
/// `[e0, e1, ..., en]` becomes `((e0 e1) ...) en`.
pub open spec fn chain(exprs: Seq<Expr>) -> Expr
    recommends
        exprs.len() > 0,
{
    chain_from(exprs[0], exprs.drop_first())
}

/// The expression that a colour block stands for.
pub open spec fn color_expr(c: Color) -> Expr {
    match c {
        Color::Primary(p) => prim(p),
        Color::Orange => app(prim(PrimaryColor::Red), prim(PrimaryColor::Yellow)),
        Color::Green => app(prim(PrimaryColor::Blue), prim(PrimaryColor::Yellow)),
        Color::Purple => app(prim(PrimaryColor::Red), prim(PrimaryColor::Blue)),
        Color::Pink => app(prim(PrimaryColor::Red), prim(PrimaryColor::Red)),
        Color::Cyan => app(prim(PrimaryColor::Blue), prim(PrimaryColor::Blue)),
        Color::Violet => app(prim(PrimaryColor::Blue), prim(PrimaryColor::Red)),
        Color::Lime => app(
            app(prim(PrimaryColor::Blue), prim(PrimaryColor::Yellow)),
            prim(PrimaryColor::Yellow),
        ),
        Color::Teal => app(
            app(prim(PrimaryColor::Blue), prim(PrimaryColor::Yellow)),
            prim(PrimaryColor::Blue),
        ),
    }
}

/// The expression for a row of colour blocks, which is read right to left:
/// the last block is the head, and each block before it is applied in turn.
pub open spec fn row_expr(colors: Seq<Color>) -> Expr
    recommends
        colors.len() > 0,
    decreases colors.len(),
{
    if colors.len() <= 1 {
        color_expr(colors[0])
    } else {
        app(row_expr(colors.drop_first()), color_expr(colors[0]))
    }
}

/// The named colour that the application `f x` spells, if any.
pub open spec fn mixed_color(f: Expr, x: Expr) -> Option<Color> {
    match (f, x) {
        (Expr::Apply(f1, x1), Expr::Prim(PrimaryColor::Blue)) =>
            if *f1 == prim(PrimaryColor::Blue) && *x1 == prim(PrimaryColor::Yellow) {
                Some(Color::Teal)
            } else {
                None
            },
        (Expr::Apply(f1, x1), Expr::Prim(PrimaryColor::Yellow)) =>
            if *f1 == prim(PrimaryColor::Blue) && *x1 == prim(PrimaryColor::Yellow) {
                Some(Color::Lime)
            } else {
                None
            },
        (Expr::Prim(PrimaryColor::Red), Expr::Prim(PrimaryColor::Yellow)) => Some(Color::Orange),
        (Expr::Prim(PrimaryColor::Blue), Expr::Prim(PrimaryColor::Yellow)) => Some(Color::Green),
        (Expr::Prim(PrimaryColor::Red), Expr::Prim(PrimaryColor::Blue)) => Some(Color::Purple),
        (Expr::Prim(PrimaryColor::Red), Expr::Prim(PrimaryColor::Red)) => Some(Color::Pink),
        (Expr::Prim(PrimaryColor::Blue), Expr::Prim(PrimaryColor::Blue)) => Some(Color::Cyan),
        (Expr::Prim(PrimaryColor::Blue), Expr::Prim(PrimaryColor::Red)) => Some(Color::Violet),
        _ => None,
    }
}

/// The colour blocks read off an expression, left to right: a primitive is
/// its own block, an application that spells a named colour is that block,
/// and any other application is the blocks of its function followed by those
/// of its argument.
pub open spec fn colors_of(e: Expr) -> Seq<Color>
    decreases e,
{
    match e {
        Expr::Prim(p) => seq![Color::Primary(p)],
        Expr::Apply(f, x) => match mixed_color(*f, *x) {
            Some(c) => seq![c],
            None => colors_of(*f) + colors_of(*x),
        },
    }
}

/// Applies the expressions left-associatively: `[e0, e1, e2]` gives
/// `(e0 e1) e2`.
fn apply_chain(exprs: Vec<Expr>) -> (r: Expr)
    requires
        exprs.len() > 0,
    ensures
        r == chain(exprs@),
{
    let mut rest = exprs;
    let mut acc = rest.remove(0);
    assert(rest@ == exprs@.drop_first());
    while rest.len() > 0
        invariant
            chain_from(acc, rest@) == chain(exprs@),
        decreases rest.len(),
    {
        let next = rest.remove(0);
        acc = Expr::Apply(Box::new(acc), Box::new(next));
    }
    acc
}

/// The expression that a colour block stands for: a primitive colour is
/// itself, each mixture is the application of primitives that defines it.
pub fn normalize_color(color: &Color) -> (r: Expr)
    ensures
        r == color_expr(*color),
{
    let r = match color {
        Color::Primary(p) => Expr::Prim(*p),
        Color::Orange => apply_chain(vec![Expr::Prim(Red), Expr::Prim(Yellow)]),
        Color::Green => apply_chain(vec![Expr::Prim(Blue), Expr::Prim(Yellow)]),
        Color::Purple => apply_chain(vec![Expr::Prim(Red), Expr::Prim(Blue)]),
        Color::Pink => apply_chain(vec![Expr::Prim(Red), Expr::Prim(Red)]),
        Color::Cyan => apply_chain(vec![Expr::Prim(Blue), Expr::Prim(Blue)]),
        Color::Violet => apply_chain(vec![Expr::Prim(Blue), Expr::Prim(Red)]),
        Color::Lime => apply_chain(vec![Expr::Prim(Blue), Expr::Prim(Yellow), Expr::Prim(Yellow)]),
        Color::Teal => apply_chain(vec![Expr::Prim(Blue), Expr::Prim(Yellow), Expr::Prim(Blue)]),
    };
    proof {
        reveal_with_fuel(chain_from, 4);
    }
    r
}

/// Builds the expression for a row of colour blocks, read right to left.
pub fn build_expr_from_colors(colors: &[Color]) -> (r: Expr)
    requires
        colors@.len() > 0,
    ensures
        r == row_expr(colors@),
{
    let n = colors.len();
    let mut i = n - 1;
    let mut acc = normalize_color(&colors[i]);
    assert(colors@.subrange(i as int, n as int) =~= seq![colors@[i as int]]);
    while i > 0
        invariant
            n == colors@.len(),
            0 <= i < n,
            acc == row_expr(colors@.subrange(i as int, n as int)),
        decreases i,
    {
        i = i - 1;
        let e = normalize_color(&colors[i]);
        assert(colors@.subrange(i as int, n as int).drop_first() =~= colors@.subrange(i + 1, n as int));
        acc = Expr::Apply(Box::new(acc), Box::new(e));
    }
    assert(colors@.subrange(0, n as int) =~= colors@);
    acc
}

/// Reads the colour blocks off an expression (see `colors_of`).
pub fn extract_colors(expr: &Expr) -> (r: Vec<Color>)
    ensures
        r@ == colors_of(*expr),
    decreases expr,
{
    match expr {
        Expr::Prim(p) => vec![Color::Primary(*p)],
        Expr::Apply(f, x) => {
            let mixed = mixed_color_of(f, x);
            match mixed {
                Some(c) => vec![c],
                None => {
                    let mut left = extract_colors(f);
                    let mut right = extract_colors(x);
                    left.append(&mut right);
                    left
                },
            }
        },
    }
}

/// Recognises the applications that spell a named colour.
fn mixed_color_of(f: &Expr, x: &Expr) -> (r: Option<Color>)
    ensures
        r == mixed_color(*f, *x),
{
    match (f, x) {
        (Expr::Apply(f1, x1), Expr::Prim(Blue)) => {
            if is_prim(f1, Blue) && is_prim(x1, Yellow) {
                Some(Color::Teal)
            } else {
                None
            }
        },
        (Expr::Apply(f1, x1), Expr::Prim(Yellow)) => {
            if is_prim(f1, Blue) && is_prim(x1, Yellow) {
                Some(Color::Lime)
            } else {
                None
            }
        },
        (Expr::Prim(Red), Expr::Prim(Yellow)) => Some(Color::Orange),
        (Expr::Prim(Blue), Expr::Prim(Yellow)) => Some(Color::Green),
        (Expr::Prim(Red), Expr::Prim(Blue)) => Some(Color::Purple),
        (Expr::Prim(Red), Expr::Prim(Red)) => Some(Color::Pink),
        (Expr::Prim(Blue), Expr::Prim(Blue)) => Some(Color::Cyan),
        (Expr::Prim(Blue), Expr::Prim(Red)) => Some(Color::Violet),
        _ => None,
    }
}

/// Whether `e` is the primitive `p`.
fn is_prim(e: &Expr, p: PrimaryColor) -> (r: bool)
    ensures
        r == (*e == prim(p)),
{
    match e {
        Expr::Prim(q) => *q == p,
        Expr::Apply(_, _) => false,
    }
}

/// Reading the blocks off the expression of a single colour block gives back
/// that block.
pub proof fn lemma_colors_of_color_expr(c: Color)
    ensures
        colors_of(color_expr(c)) == seq![c],
{
}

/// The primitive colours at the leaves of an expression, left to right.
pub open spec fn leaves(e: Expr) -> Seq<PrimaryColor>
    decreases e,
{
    match e {
        Expr::Prim(p) => seq![p],
        Expr::Apply(f, x) => leaves(*f) + leaves(*x),
    }
}

/// The leaves of the expressions of a list of blocks, one block after the
/// other.
pub open spec fn blocks_leaves(cs: Seq<Color>) -> Seq<PrimaryColor>
    decreases cs.len(),
{
    if cs.len() == 0 {
        Seq::empty()
    } else {
        blocks_leaves(cs.drop_last()) + leaves(color_expr(cs.last()))
    }
}

/// The leaves of two lists of blocks put together.
proof fn lemma_blocks_leaves_concat(a: Seq<Color>, b: Seq<Color>)
    ensures
        blocks_leaves(a + b) == blocks_leaves(a) + blocks_leaves(b),
    decreases b.len(),
{
    if b.len() == 0 {
        assert(a + b =~= a);
    } else {
        lemma_blocks_leaves_concat(a, b.drop_last());
        assert((a + b).drop_last() =~= a + b.drop_last());
        assert((a + b).last() == b.last());
    }
}

/// At least one block is read off any expression.
proof fn lemma_colors_of_nonempty(e: Expr)
    ensures
        colors_of(e).len() >= 1,
    decreases e,
{
    match e {
        Expr::Prim(_) => {},
        Expr::Apply(f, x) => {
            lemma_colors_of_nonempty(*f);
        },
    }
}

/// The blocks read off an expression tile it: their expressions' leaves, one
/// block after the other, are exactly the expression's leaves in order.
pub proof fn lemma_colors_of_tiles_leaves(e: Expr)
    ensures
        blocks_leaves(colors_of(e)) == leaves(e),
    decreases e,
{
    match e {
        Expr::Prim(p) => {
            assert(seq![Color::Primary(p)].drop_last() =~= Seq::<Color>::empty());
            assert(Seq::<PrimaryColor>::empty() + seq![p] =~= seq![p]);
            let cs = seq![Color::Primary(p)];
            assert(blocks_leaves(cs.drop_last()) == Seq::<PrimaryColor>::empty());
            assert(cs.last() == Color::Primary(p));
            assert(leaves(color_expr(Color::Primary(p))) == seq![p]);
            assert(colors_of(e) == cs);
        },
        Expr::Apply(f, x) => {
            match mixed_color(*f, *x) {
                Some(c) => {
                    assert(seq![c].drop_last() =~= Seq::<Color>::empty());
                    match *f {
                        Expr::Apply(f1, x1) => {
                            assert(leaves(*f) == leaves(*f1) + leaves(*x1));
                        },
                        _ => {},
                    }
                    assert(leaves(color_expr(c)) =~= leaves(e));
                    assert(Seq::<PrimaryColor>::empty() + leaves(e) =~= leaves(e));
                    let cs = seq![c];
                    assert(blocks_leaves(cs.drop_last()) == Seq::<PrimaryColor>::empty());
                    assert(colors_of(e) == cs);
                },
                None => {
                    lemma_colors_of_tiles_leaves(*f);
                    lemma_colors_of_tiles_leaves(*x);
                    lemma_blocks_leaves_concat(colors_of(*f), colors_of(*x));
                },
            }
        },
    }
}

/// A single block is read off an expression only when the expression is that
/// block's own expression.
pub proof fn lemma_single_block_is_exact(e: Expr, c: Color)
    requires
        colors_of(e) == seq![c],
    ensures
        e == color_expr(c),
{
    match e {
        Expr::Prim(p) => {
            assert(colors_of(e)[0] == Color::Primary(p));
        },
        Expr::Apply(f, x) => {
            match mixed_color(*f, *x) {
                Some(d) => {
                    assert(colors_of(e)[0] == d);
                    match *f {
                        Expr::Apply(f1, x1) => {
                            assert(app(*f1, *x1) == *f);
                        },
                        _ => {},
                    }
                    assert(app(*f, *x) == e);
                },
                None => {
                    lemma_colors_of_nonempty(*f);
                    lemma_colors_of_nonempty(*x);
                    assert(colors_of(e).len() >= 2);
                },
            }
        },
    }
}

/// Folding one more expression onto a left-associated application applies
/// the whole to it.
proof fn lemma_chain_from_push(acc: Expr, s: Seq<Expr>, x: Expr)
    ensures
        chain_from(acc, s.push(x)) == app(chain_from(acc, s), x),
    decreases s.len(),
{
    if s.len() == 0 {
        assert(s.push(x).drop_first() =~= Seq::<Expr>::empty());
        assert(s.push(x)[0] == x);
        assert(chain_from(app(acc, x), Seq::<Expr>::empty()) == app(acc, x));
    } else {
        lemma_chain_from_push(app(acc, s[0]), s.drop_first(), x);
        assert(s.push(x).drop_first() =~= s.drop_first().push(x));
        assert(s.push(x)[0] == s[0]);
    }
}

/// Putting one more block in front of a row (on its left) applies the row's
/// expression to that block's expression, as a single argument.
pub proof fn lemma_row_expr_prepend(c: Color, rest: Seq<Color>)
    requires
        rest.len() > 0,
    ensures
        row_expr(seq![c] + rest) == app(row_expr(rest), color_expr(c)),
{
    let cs = seq![c] + rest;
    assert(cs.drop_first() =~= rest);
    assert(cs[0] == c);
}

/// The expression of a row is the left-associated application of its
/// blocks' expressions taken right to left: the last block's expression is
/// applied to each earlier block's expression in turn, each block one
/// argument.
pub proof fn lemma_row_expr_is_chain_of_blocks(colors: Seq<Color>)
    requires
        colors.len() > 0,
    ensures
        row_expr(colors) == chain(colors.reverse().map_values(|c: Color| color_expr(c))),
    decreases colors.len(),
{
    let m = colors.reverse().map_values(|c: Color| color_expr(c));
    if colors.len() == 1 {
        assert(m.drop_first() =~= Seq::<Expr>::empty());
        assert(m[0] == color_expr(colors[0]));
    } else {
        let rest = colors.drop_first();
        lemma_row_expr_is_chain_of_blocks(rest);
        let mr = rest.reverse().map_values(|c: Color| color_expr(c));
        assert(m =~= mr.push(color_expr(colors[0])));
        assert(m[0] == mr[0]);
        assert(m.drop_first() =~= mr.drop_first().push(color_expr(colors[0])));
        lemma_chain_from_push(mr[0], mr.drop_first(), color_expr(colors[0]));
    }
}

} // verus!
