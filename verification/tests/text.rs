use colourful::colour::PrimaryColor::{Blue, Red, Yellow};
use colourful::colour::Color;
use colourful::text::{colors_from_text, colour_chunks};

#[test]
fn colors_from_text_finds_names() {
    assert_eq!(
        colors_from_text("red, Blue and YELLOW!"),
        vec![Color::Primary(Red), Color::Primary(Blue), Color::Primary(Yellow)]
    );
    assert_eq!(colors_from_text("red1teal"), vec![Color::Primary(Red), Color::Teal]);
    assert_eq!(colors_from_text(""), Vec::<Color>::new());
    assert_eq!(colors_from_text("nothing here"), Vec::<Color>::new());
}

#[test]
fn colors_from_text_uses_unicode_letters() {
    // 'é' is alphabetic, so "redé" is one word that names no colour
    assert_eq!(colors_from_text("redé lime"), vec![Color::Lime]);
}

#[test]
fn colour_chunks_alternate_runs() {
    let chunks = colour_chunks("red car, Teal!");
    let expected: Vec<(String, Option<Color>)> = vec![
        ("red".to_string(), Some(Color::Primary(Red))),
        (" ".to_string(), None),
        ("car".to_string(), None),
        (", ".to_string(), None),
        ("Teal".to_string(), Some(Color::Teal)),
        ("!".to_string(), None),
    ];
    assert_eq!(chunks, expected);
}

#[test]
fn colour_chunks_edge_cases() {
    assert_eq!(colour_chunks(""), Vec::<(String, Option<Color>)>::new());
    assert_eq!(colour_chunks("  "), vec![("  ".to_string(), None)]);
    assert_eq!(colour_chunks("blue"), vec![("blue".to_string(), Some(Color::Primary(Blue)))]);
    assert_eq!(
        colour_chunks("1red"),
        vec![("1".to_string(), None), ("red".to_string(), Some(Color::Primary(Red)))]
    );
}

#[test]
fn lowercasing_ascii_changes_only_capital_letters() {
    for code in 0u8..128 {
        let s = (code as char).to_string();
        assert_eq!(s.to_lowercase(), s.to_ascii_lowercase());
    }
    assert_eq!(colourful::colour::color_from_name("VIOLET"), Some(Color::Violet));
}

#[test]
fn colour_chunks_put_back_together_give_the_text() {
    for t in ["red car, Teal!", "", "  a", "é1ü2", "RedBlue green"] {
        let chunks = colour_chunks(t);
        let joined: String = chunks.iter().map(|(s, _)| s.as_str()).collect();
        assert_eq!(joined, t);
        for w in chunks.windows(2) {
            let a = w[0].0.chars().next().unwrap().is_alphabetic();
            let b = w[1].0.chars().next().unwrap().is_alphabetic();
            assert_ne!(a, b);
        }
    }
}
