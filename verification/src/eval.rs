use vstd::prelude::*;
use crate::colour::PrimaryColor;
use crate::colour::PrimaryColor::{Blue, Red, Yellow};
use crate::colour::Color;
use crate::expr::{app, build_expr_from_colors, colors_of, extract_colors, prim, row_expr, Expr};

verus! {

/// Evaluation with at most `fuel` nested steps; `None` when the budget runs
/// out. The rules, with Yellow = I, Red = K and Blue = S:
///
/// * a primitive is a value;
/// * `I x` evaluates `x`;
/// * `K x` and `S x` keep the head and evaluate `x`;
/// * `K x y` evaluates `x`;
/// * `S f g` is a value as it stands (its arguments are not evaluated);
/// * `I x y` evaluates `x y`;
/// * `S f g x` evaluates `(f x) (g x)`;
/// * any other `h a b` evaluates `h a` and `b`, then the application of the
///   first result to the second.
pub open spec fn eval_fuel(e: Expr, fuel: nat) -> Option<Expr>
    decreases fuel,
{
    if fuel == 0 {
        None
    } else {
        let n = (fuel - 1) as nat;
        match e {
            Expr::Prim(_) => Some(e),
            Expr::Apply(f, x) => match *f {
                Expr::Prim(Yellow) => eval_fuel(*x, n),
                Expr::Prim(p) => match eval_fuel(*x, n) {
                    Some(v) => Some(app(prim(p), v)),
                    None => None,
                },
                Expr::Apply(f2, x2) => match *f2 {
                    Expr::Prim(Red) => eval_fuel(*x2, n),
                    Expr::Prim(Blue) => Some(e),
                    Expr::Prim(Yellow) => eval_fuel(app(*x2, *x), n),
                    Expr::Apply(f3, x3) => match *f3 {
                        Expr::Prim(Blue) => eval_fuel(app(app(*x3, *x), app(*x2, *x)), n),
                        _ => match (eval_fuel(app(*f2, *x2), n), eval_fuel(*x, n)) {
                            (Some(l), Some(r)) => eval_fuel(app(l, r), n),
                            _ => None,
                        },
                    },
                },
            },
        }
    }
}

/// The evaluation of `e` comes to an end.
pub open spec fn terminates(e: Expr) -> bool {
    exists|fuel: nat| #[trigger] eval_fuel(e, fuel) is Some
}

/// The value of `e`, where its evaluation terminates.
pub open spec fn spec_evaluate(e: Expr) -> Expr
    recommends
        terminates(e),
{
    eval_fuel(e, choose|fuel: nat| #[trigger] eval_fuel(e, fuel) is Some).unwrap()
}

/// More fuel never changes a result that less fuel already reached.
pub proof fn lemma_eval_fuel_monotone(e: Expr, n: nat, m: nat)
    requires
        eval_fuel(e, n) is Some,
        n <= m,
    ensures
        eval_fuel(e, m) == eval_fuel(e, n),
    decreases n,
{
    let n1 = (n - 1) as nat;
    let m1 = (m - 1) as nat;
    match e {
        Expr::Prim(_) => {},
        Expr::Apply(f, x) => match *f {
            Expr::Prim(Yellow) => lemma_eval_fuel_monotone(*x, n1, m1),
            Expr::Prim(p) => lemma_eval_fuel_monotone(*x, n1, m1),
            Expr::Apply(f2, x2) => match *f2 {
                Expr::Prim(Red) => lemma_eval_fuel_monotone(*x2, n1, m1),
                Expr::Prim(Blue) => {},
                Expr::Prim(Yellow) => lemma_eval_fuel_monotone(app(*x2, *x), n1, m1),
                Expr::Apply(f3, x3) => match *f3 {
                    Expr::Prim(Blue) => lemma_eval_fuel_monotone(
                        app(app(*x3, *x), app(*x2, *x)),
                        n1,
                        m1,
                    ),
                    _ => {
                        let l = eval_fuel(app(*f2, *x2), n1).unwrap();
                        let r = eval_fuel(*x, n1).unwrap();
                        lemma_eval_fuel_monotone(app(*f2, *x2), n1, m1);
                        lemma_eval_fuel_monotone(*x, n1, m1);
                        lemma_eval_fuel_monotone(app(l, r), n1, m1);
                    },
                },
            },
        },
    }
}

/// Any fuel that brings the evaluation to an end gives the value.
pub proof fn lemma_eval_fuel_is_value(e: Expr, n: nat)
    requires
        eval_fuel(e, n) is Some,
    ensures
        terminates(e),
        spec_evaluate(e) == eval_fuel(e, n).unwrap(),
{
    let k = choose|fuel: nat| #[trigger] eval_fuel(e, fuel) is Some;
    if k <= n {
        lemma_eval_fuel_monotone(e, k, n);
    } else {
        lemma_eval_fuel_monotone(e, n, k);
    }
}

/// A value is left as it is when it is evaluated again: for each result of a
/// bounded evaluation there is a budget with which it evaluates to itself.
proof fn lemma_result_is_fixed(e: Expr, n: nat) -> (k: nat)
    requires
        eval_fuel(e, n) is Some,
    ensures
        eval_fuel(eval_fuel(e, n).unwrap(), k) == eval_fuel(e, n),
    decreases n,
{
    let n1 = (n - 1) as nat;
    match e {
        Expr::Prim(_) => 1,
        Expr::Apply(f, x) => match *f {
            Expr::Prim(Yellow) => lemma_result_is_fixed(*x, n1),
            Expr::Prim(p) => {
                let k1 = lemma_result_is_fixed(*x, n1);
                k1 + 1
            },
            Expr::Apply(f2, x2) => match *f2 {
                Expr::Prim(Red) => lemma_result_is_fixed(*x2, n1),
                Expr::Prim(Blue) => 1,
                Expr::Prim(Yellow) => lemma_result_is_fixed(app(*x2, *x), n1),
                Expr::Apply(f3, x3) => match *f3 {
                    Expr::Prim(Blue) => lemma_result_is_fixed(app(app(*x3, *x), app(*x2, *x)), n1),
                    _ => {
                        let l = eval_fuel(app(*f2, *x2), n1).unwrap();
                        let r = eval_fuel(*x, n1).unwrap();
                        lemma_result_is_fixed(app(l, r), n1)
                    },
                },
            },
        },
    }
}

/// A primitive colour evaluates to itself.
pub proof fn lemma_primitive_is_value(p: PrimaryColor)
    ensures
        terminates(prim(p)),
        spec_evaluate(prim(p)) == prim(p),
{
    lemma_eval_fuel_is_value(prim(p), 1);
}

/// Yellow is the identity: `Yellow x` evaluates exactly when `x` does, and to
/// the same value.
pub proof fn lemma_yellow_is_identity(x: Expr)
    ensures
        terminates(app(prim(Yellow), x)) <==> terminates(x),
        terminates(x) ==> spec_evaluate(app(prim(Yellow), x)) == spec_evaluate(x),
{
    let e = app(prim(Yellow), x);
    if terminates(x) {
        let n = choose|fuel: nat| #[trigger] eval_fuel(x, fuel) is Some;
        assert(eval_fuel(e, n + 1) == eval_fuel(x, n));
        lemma_eval_fuel_is_value(e, n + 1);
        lemma_eval_fuel_is_value(x, n);
    }
    if terminates(e) {
        let n = choose|fuel: nat| #[trigger] eval_fuel(e, fuel) is Some;
        assert(eval_fuel(x, (n - 1) as nat) is Some);
    }
}

/// Red keeps its first argument and drops the second: `Red x y` evaluates
/// exactly when `x` does, and to the value of `x`.
pub proof fn lemma_red_is_constant(x: Expr, y: Expr)
    ensures
        terminates(app(app(prim(Red), x), y)) <==> terminates(x),
        terminates(x) ==> spec_evaluate(app(app(prim(Red), x), y)) == spec_evaluate(x),
{
    let e = app(app(prim(Red), x), y);
    if terminates(x) {
        let n = choose|fuel: nat| #[trigger] eval_fuel(x, fuel) is Some;
        assert(eval_fuel(e, n + 1) == eval_fuel(x, n));
        lemma_eval_fuel_is_value(e, n + 1);
        lemma_eval_fuel_is_value(x, n);
    }
    if terminates(e) {
        let n = choose|fuel: nat| #[trigger] eval_fuel(e, fuel) is Some;
        assert(eval_fuel(x, (n - 1) as nat) is Some);
    }
}

/// Blue distributes its third argument: `Blue f g x` evaluates exactly when
/// `(f x) (g x)` does, and to the same value.
pub proof fn lemma_blue_substitutes(f: Expr, g: Expr, x: Expr)
    ensures
        terminates(app(app(app(prim(Blue), f), g), x)) <==> terminates(app(app(f, x), app(g, x))),
        terminates(app(app(f, x), app(g, x))) ==> spec_evaluate(app(app(app(prim(Blue), f), g), x))
            == spec_evaluate(app(app(f, x), app(g, x))),
{
    let e = app(app(app(prim(Blue), f), g), x);
    let s = app(app(f, x), app(g, x));
    if terminates(s) {
        let n = choose|fuel: nat| #[trigger] eval_fuel(s, fuel) is Some;
        assert(eval_fuel(e, n + 1) == eval_fuel(s, n));
        lemma_eval_fuel_is_value(e, n + 1);
        lemma_eval_fuel_is_value(s, n);
    }
    if terminates(e) {
        let n = choose|fuel: nat| #[trigger] eval_fuel(e, fuel) is Some;
        assert(eval_fuel(s, (n - 1) as nat) is Some);
    }
}

/// Blue with fewer than three arguments waits: `Blue f g` is already a value.
pub proof fn lemma_blue_waits(f: Expr, g: Expr)
    ensures
        terminates(app(app(prim(Blue), f), g)),
        spec_evaluate(app(app(prim(Blue), f), g)) == app(app(prim(Blue), f), g),
{
    lemma_eval_fuel_is_value(app(app(prim(Blue), f), g), 1);
}

/// Evaluation is idempotent: the value of an expression evaluates to itself.
pub proof fn lemma_evaluate_idempotent(e: Expr)
    requires
        terminates(e),
    ensures
        terminates(spec_evaluate(e)),
        spec_evaluate(spec_evaluate(e)) == spec_evaluate(e),
{
    let n = choose|fuel: nat| #[trigger] eval_fuel(e, fuel) is Some;
    let v = eval_fuel(e, n).unwrap();
    let k = lemma_result_is_fixed(e, n);
    lemma_eval_fuel_is_value(v, k);
}

/// Red or Blue with a single argument keeps its head and evaluates the
/// argument: `p x` evaluates exactly when `x` does, to `p v` where `v` is the
/// value of `x`.
pub proof fn lemma_single_argument_is_evaluated(p: PrimaryColor, x: Expr)
    requires
        p != Yellow,
    ensures
        terminates(app(prim(p), x)) <==> terminates(x),
        terminates(x) ==> spec_evaluate(app(prim(p), x)) == app(prim(p), spec_evaluate(x)),
{
    let e = app(prim(p), x);
    if terminates(x) {
        let n = choose|fuel: nat| #[trigger] eval_fuel(x, fuel) is Some;
        assert(eval_fuel(e, n + 1) == Some(app(prim(p), eval_fuel(x, n).unwrap())));
        lemma_eval_fuel_is_value(e, n + 1);
        lemma_eval_fuel_is_value(x, n);
    }
    if terminates(e) {
        let n = choose|fuel: nat| #[trigger] eval_fuel(e, fuel) is Some;
        assert(eval_fuel(x, (n - 1) as nat) is Some);
    }
}

/// Yellow with two arguments applies the first to the second: `Yellow x y`
/// evaluates exactly when `x y` does, and to the same value.
pub proof fn lemma_yellow_applies_first_to_second(x: Expr, y: Expr)
    ensures
        terminates(app(app(prim(Yellow), x), y)) <==> terminates(app(x, y)),
        terminates(app(x, y)) ==> spec_evaluate(app(app(prim(Yellow), x), y)) == spec_evaluate(
            app(x, y),
        ),
{
    let e = app(app(prim(Yellow), x), y);
    let s = app(x, y);
    if terminates(s) {
        let n = choose|fuel: nat| #[trigger] eval_fuel(s, fuel) is Some;
        assert(eval_fuel(e, n + 1) == eval_fuel(s, n));
        lemma_eval_fuel_is_value(e, n + 1);
        lemma_eval_fuel_is_value(s, n);
    }
    if terminates(e) {
        let n = choose|fuel: nat| #[trigger] eval_fuel(e, fuel) is Some;
        assert(eval_fuel(s, (n - 1) as nat) is Some);
    }
}

/// Any application `h a b c` that is not a Blue redex (its head `h` is not
/// Blue) is evaluated from the inside out: it comes to an end exactly when
/// `h a b`, `c`, and the application of the value `v` of `h a b` to the value
/// `w` of `c` all do, and its value is that of `v w`. So `Red x y z`
/// evaluates like `x z`.
pub proof fn lemma_nested_head_then_argument(h: Expr, a: Expr, b: Expr, c: Expr)
    requires
        h != prim(Blue),
    ensures
        terminates(app(app(app(h, a), b), c)) <==> (terminates(app(app(h, a), b)) && terminates(c)
            && terminates(app(spec_evaluate(app(app(h, a), b)), spec_evaluate(c)))),
        terminates(app(app(app(h, a), b), c)) ==> spec_evaluate(app(app(app(h, a), b), c))
            == spec_evaluate(app(spec_evaluate(app(app(h, a), b)), spec_evaluate(c))),
{
    let e = app(app(app(h, a), b), c);
    let hab = app(app(h, a), b);
    if terminates(hab) && terminates(c) && terminates(app(spec_evaluate(hab), spec_evaluate(c))) {
        let n1 = choose|fuel: nat| #[trigger] eval_fuel(hab, fuel) is Some;
        let n2 = choose|fuel: nat| #[trigger] eval_fuel(c, fuel) is Some;
        let vw = app(spec_evaluate(hab), spec_evaluate(c));
        let n3 = choose|fuel: nat| #[trigger] eval_fuel(vw, fuel) is Some;
        let m = if n1 >= n2 && n1 >= n3 {
            n1
        } else if n2 >= n3 {
            n2
        } else {
            n3
        };
        lemma_eval_fuel_is_value(hab, n1);
        lemma_eval_fuel_is_value(c, n2);
        lemma_eval_fuel_monotone(hab, n1, m);
        lemma_eval_fuel_monotone(c, n2, m);
        lemma_eval_fuel_monotone(vw, n3, m);
        assert(eval_fuel(e, m + 1) == eval_fuel(vw, m));
        lemma_eval_fuel_is_value(e, m + 1);
        lemma_eval_fuel_is_value(vw, n3);
    }
    if terminates(e) {
        let n = choose|fuel: nat| #[trigger] eval_fuel(e, fuel) is Some;
        let n1 = (n - 1) as nat;
        assert(eval_fuel(hab, n1) is Some);
        assert(eval_fuel(c, n1) is Some);
        let v = eval_fuel(hab, n1).unwrap();
        let w = eval_fuel(c, n1).unwrap();
        assert(eval_fuel(app(v, w), n1) is Some);
        lemma_eval_fuel_is_value(hab, n1);
        lemma_eval_fuel_is_value(c, n1);
        lemma_eval_fuel_is_value(app(v, w), n1);
        lemma_eval_fuel_is_value(e, n);
    }
}

/// Red with three arguments: `Red x y z` evaluates like `x z` (where `x` and
/// `z` come to an end).
pub proof fn lemma_red_with_three_arguments(x: Expr, y: Expr, z: Expr)
    requires
        terminates(x),
        terminates(z),
    ensures
        terminates(app(app(app(prim(Red), x), y), z)) <==> terminates(
            app(spec_evaluate(x), spec_evaluate(z)),
        ),
        terminates(app(app(app(prim(Red), x), y), z)) ==> spec_evaluate(
            app(app(app(prim(Red), x), y), z),
        ) == spec_evaluate(app(spec_evaluate(x), spec_evaluate(z))),
{
    lemma_red_is_constant(x, y);
    lemma_evaluate_idempotent(x);
    lemma_nested_head_then_argument(prim(Red), x, y, z);
}

/// Evaluation within a known budget.
fn eval_within(expr: Expr, Ghost(fuel): Ghost<nat>) -> (r: Expr)
    requires
        eval_fuel(expr, fuel) is Some,
    ensures
        eval_fuel(expr, fuel) == Some(r),
    decreases fuel,
{
    let ghost n = (fuel - 1) as nat;
    match expr {
        Expr::Prim(p) => Expr::Prim(p),
        Expr::Apply(f, x) => match *f {
            Expr::Prim(Yellow) => eval_within(*x, Ghost(n)),
            Expr::Prim(p) => {
                let v = eval_within(*x, Ghost(n));
                Expr::Apply(Box::new(Expr::Prim(p)), Box::new(v))
            },
            Expr::Apply(f2, x2) => match *f2 {
                Expr::Prim(Red) => eval_within(*x2, Ghost(n)),
                Expr::Prim(Blue) => Expr::Apply(
                    Box::new(Expr::Apply(Box::new(Expr::Prim(Blue)), x2)),
                    x,
                ),
                Expr::Prim(Yellow) => eval_within(Expr::Apply(x2, x), Ghost(n)),
                Expr::Apply(f3, x3) => match *f3 {
                    Expr::Prim(Blue) => {
                        let x_copy = (*x).clone();
                        let fx = Expr::Apply(x3, Box::new(x_copy));
                        let gx = Expr::Apply(x2, x);
                        eval_within(Expr::Apply(Box::new(fx), Box::new(gx)), Ghost(n))
                    },
                    other => {
                        let left = eval_within(
                            Expr::Apply(Box::new(Expr::Apply(Box::new(other), x3)), x2),
                            Ghost(n),
                        );
                        let right = eval_within(*x, Ghost(n));
                        eval_within(Expr::Apply(Box::new(left), Box::new(right)), Ghost(n))
                    },
                },
            },
        },
    }
}

/// Evaluates an expression by the rules of `eval_fuel`, for as long as it
/// takes.
pub fn evaluate(expr: Expr) -> (r: Expr)
    requires
        terminates(expr),
    ensures
        r == spec_evaluate(expr),
{
    let ghost fuel = choose|fuel: nat| #[trigger] eval_fuel(expr, fuel) is Some;
    eval_within(expr, Ghost(fuel))
}

/// Evaluates a row of colour blocks: the row's expression (read right to
/// left) is evaluated, and the blocks read off the value are given in the
/// row's direction, that is, reversed.
pub fn evaluate_color_row(colors: &[Color]) -> (r: Vec<Color>)
    requires
        colors@.len() > 0,
        terminates(row_expr(colors@)),
    ensures
        r@ == colors_of(spec_evaluate(row_expr(colors@))).reverse(),
{
    let expr = build_expr_from_colors(colors);
    let value = evaluate(expr);
    let blocks = extract_colors(&value);
    let mut out: Vec<Color> = Vec::new();
    let mut i = blocks.len();
    while i > 0
        invariant
            i <= blocks@.len(),
            out@ == blocks@.subrange(i as int, blocks@.len() as int).reverse(),
        decreases i,
    {
        i = i - 1;
        out.push(blocks[i]);
        assert(blocks@.subrange(i as int, blocks@.len() as int).reverse() =~= blocks@.subrange(
            i + 1,
            blocks@.len() as int,
        ).reverse().push(blocks@[i as int]));
    }
    assert(blocks@.subrange(0, blocks@.len() as int) =~= blocks@);
    out
}

} // verus!
