use colourful::colour::PrimaryColor::{Blue, Red, Yellow};
use colourful::colour::{color_from_name, to_css_color, Color, PrimaryColor};
use colourful::eval::{evaluate, evaluate_color_row};
use colourful::expr::{build_expr_from_colors, extract_colors, normalize_color, Expr};
use colourful::syntax::{parse_ski, to_colourful, to_ski_string};

const ALL_COLORS: [Color; 11] = [
    Color::Primary(Red),
    Color::Primary(Blue),
    Color::Primary(Yellow),
    Color::Orange,
    Color::Green,
    Color::Purple,
    Color::Pink,
    Color::Cyan,
    Color::Violet,
    Color::Lime,
    Color::Teal,
];

fn ski(s: &str) -> Expr {
    parse_ski(s).expect("valid combinator string")
}

fn eval_ski(s: &str) -> String {
    to_ski_string(&evaluate(ski(s)))
}

#[test]
fn normalize_color_gives_defining_application() {
    let expected = ["K", "S", "I", "KI", "SI", "KS", "KK", "SS", "SK", "SII", "SIS"];
    for (c, e) in ALL_COLORS.iter().zip(expected.iter()) {
        assert_eq!(to_ski_string(&normalize_color(c)), *e);
    }
}

#[test]
fn extract_colors_reads_back_each_block() {
    for c in ALL_COLORS.iter() {
        assert_eq!(extract_colors(&normalize_color(c)), vec![*c]);
    }
}

#[test]
fn build_expr_reads_row_right_to_left() {
    let e = build_expr_from_colors(&[Color::Primary(Red), Color::Primary(Blue), Color::Orange]);
    assert_eq!(to_ski_string(&e), "KISK");
    assert_eq!(to_colourful(&e), "(((red yellow) blue) red)");
    let single = build_expr_from_colors(&[Color::Teal]);
    assert_eq!(to_ski_string(&single), "SIS");
}

#[test]
fn extract_colors_flattens_unknown_applications() {
    let e = ski("IK");
    assert_eq!(extract_colors(&e), vec![Color::Primary(Yellow), Color::Primary(Red)]);
    let e = ski("S(KI)");
    assert_eq!(extract_colors(&e), vec![Color::Primary(Blue), Color::Orange]);
    let e = ski("SISK");
    assert_eq!(extract_colors(&e), vec![Color::Teal, Color::Primary(Red)]);
}

#[test]
fn yellow_is_identity() {
    assert_eq!(eval_ski("IK"), "K");
    assert_eq!(eval_ski("I(KS)"), "KS");
    assert_eq!(eval_ski("II"), "I");
}

#[test]
fn red_keeps_first_argument() {
    assert_eq!(eval_ski("KSI"), "S");
    assert_eq!(eval_ski("K(KI)S"), "KI");
}

#[test]
fn blue_substitutes() {
    // S K K x = (K x) (K x) = x
    assert_eq!(eval_ski("SKKI"), "I");
    assert_eq!(eval_ski("SKKS"), "S");
    // S f g with fewer than three arguments is left as it is
    assert_eq!(eval_ski("SKI"), "SKI");
    assert_eq!(eval_ski("S(IK)I"), "S(IK)I");
}

#[test]
fn single_argument_of_red_or_blue_is_evaluated() {
    assert_eq!(eval_ski("K(IS)"), "KS");
    assert_eq!(eval_ski("S(II)"), "SI");
}

#[test]
fn yellow_applied_to_two_arguments() {
    assert_eq!(eval_ski("IKS"), "KS");
}

#[test]
fn nested_head_is_evaluated_first() {
    // ((K I) S) K: the head K I S evaluates to I, then I K gives K
    assert_eq!(eval_ski("KISK"), "K");
}

#[test]
fn primitive_evaluates_to_itself() {
    for p in [Red, Yellow, Blue] {
        assert_eq!(to_ski_string(&evaluate(Expr::Prim(p))), to_ski_string(&Expr::Prim(p)));
    }
}

#[test]
fn evaluate_is_idempotent_on_samples() {
    for s in ["SKKI", "KSI", "SKI", "K(IS)", "IKS", "KISK", "S(KI)(KI)K", "SII"] {
        let once = evaluate(ski(s));
        let text = to_ski_string(&once);
        let twice = evaluate(once);
        assert_eq!(to_ski_string(&twice), text);
    }
}

#[test]
fn parse_ski_ignores_whitespace() {
    assert_eq!(to_ski_string(&ski(" S K\t(K\nI) ")), "SK(KI)");
    assert_eq!(to_ski_string(&ski("S\u{3000}K")), "SK");
}

#[test]
fn parse_ski_is_left_associative() {
    let e = ski("SKI");
    assert_eq!(to_colourful(&e), "((blue red) yellow)");
    let e = ski("S(KI)");
    assert_eq!(to_colourful(&e), "(blue (red yellow))");
    let e = ski("((S))");
    assert_eq!(to_ski_string(&e), "S");
}

#[test]
fn parse_ski_errors() {
    assert_eq!(parse_ski("").unwrap_err(), "Unexpected end of input");
    assert_eq!(parse_ski("   ").unwrap_err(), "Unexpected end of input");
    assert_eq!(parse_ski("SX").unwrap_err(), "Unexpected character 'X'");
    assert_eq!(parse_ski("(SK").unwrap_err(), "Expected closing ')'");
    assert_eq!(parse_ski("()").unwrap_err(), "Unexpected character ')'");
    assert_eq!(parse_ski("(").unwrap_err(), "Unexpected end of input");
    assert_eq!(
        parse_ski("SK)x").unwrap_err(),
        "Unexpected characters after expression: [')', 'x']"
    );
    assert_eq!(parse_ski(")").unwrap_err(), "Unexpected character ')'");
}

#[test]
fn parse_ski_reads_back_printed_expressions() {
    let samples = ["S", "SKI", "S(KI)(SK)", "K(S(K(SI)))I", "((SK)(KS))(II)"];
    for s in samples {
        let e = ski(s);
        let printed = to_ski_string(&e);
        let again = ski(&printed);
        assert_eq!(to_ski_string(&again), printed);
        assert_eq!(to_colourful(&again), to_colourful(&e));
    }
    for c in ALL_COLORS.iter() {
        let e = normalize_color(c);
        let again = ski(&to_ski_string(&e));
        assert_eq!(to_colourful(&again), to_colourful(&e));
    }
}

#[test]
fn whitespace_is_exactly_std_whitespace() {
    for code in 0u32..=0x10FFFF {
        if let Some(c) = char::from_u32(code) {
            let input = format!("S{}K", c);
            let result = parse_ski(&input);
            if c.is_whitespace() {
                assert_eq!(to_ski_string(&result.unwrap()), "SK");
            } else if "SKI()".contains(c) {
                continue;
            } else {
                assert_eq!(result.unwrap_err(), format!("Unexpected character '{}'", c));
            }
        }
    }
}

#[test]
fn to_colourful_writes_names() {
    assert_eq!(to_colourful(&Expr::Prim(PrimaryColor::Red)), "red");
    assert_eq!(to_colourful(&ski("SK(IS)")), "((blue red) (yellow blue))");
}

#[test]
fn colour_names() {
    let names = [
        "red", "blue", "yellow", "orange", "green", "purple", "pink", "cyan", "violet", "lime", "teal",
    ];
    for (c, n) in ALL_COLORS.iter().zip(names.iter()) {
        assert_eq!(c.to_string(), *n);
        assert_eq!(to_css_color(c), *n);
        assert_eq!(color_from_name(n), Some(*c));
        assert_eq!(color_from_name(&n.to_uppercase()), Some(*c));
    }
}

#[test]
fn color_from_name_ignores_case_only() {
    assert_eq!(color_from_name("ReD"), Some(Color::Primary(Red)));
    assert_eq!(color_from_name("TeAl"), Some(Color::Teal));
    assert_eq!(color_from_name("reds"), None);
    assert_eq!(color_from_name(""), None);
    assert_eq!(color_from_name(" red"), None);
    assert_eq!(color_from_name("magenta"), None);
}

#[test]
fn evaluate_color_row_scenarios() {
    // Yellow (identity) applied to Red
    assert_eq!(
        evaluate_color_row(&[Color::Primary(Red), Color::Primary(Yellow)]),
        vec![Color::Primary(Red)]
    );
    // Red keeps its first argument: row "yellow blue red" is (K S) I
    assert_eq!(
        evaluate_color_row(&[
            Color::Primary(Yellow),
            Color::Primary(Blue),
            Color::Primary(Red)
        ]),
        vec![Color::Primary(Blue)]
    );
    // A single block is read back
    assert_eq!(evaluate_color_row(&[Color::Lime]), vec![Color::Lime]);
}
