use vstd::prelude::*;

verus! {

/// The three primitive colours of the language.
#[derive(Clone, Copy, Debug, PartialEq, Eq, Hash, Structural)]
pub enum PrimaryColor {
    Red,
    Yellow,
    Blue,
}

/// A colour block: a primitive colour or one of the named mixtures.
#[derive(Clone, Copy, Debug, PartialEq, Eq, Hash, Structural)]
pub enum Color {
    Primary(PrimaryColor),
    Orange,
    Green,
    Purple,
    Pink,
    Cyan,
    Violet,
    Lime,
    Teal,
}

/// The lower-case English name of a colour, which is also its CSS name.
pub open spec fn color_name(c: Color) -> Seq<char> {
    match c {
        Color::Primary(PrimaryColor::Red) => "red"@,
        Color::Primary(PrimaryColor::Blue) => "blue"@,
        Color::Primary(PrimaryColor::Yellow) => "yellow"@,
        Color::Orange => "orange"@,
        Color::Green => "green"@,
        Color::Purple => "purple"@,
        Color::Pink => "pink"@,
        Color::Cyan => "cyan"@,
        Color::Violet => "violet"@,
        Color::Lime => "lime"@,
        Color::Teal => "teal"@,
    }
}

/// The name of a primitive colour.
pub open spec fn primary_name(p: PrimaryColor) -> Seq<char> {
    color_name(Color::Primary(p))
}

impl Color {
    /// The display name of the colour ("red", "orange", ...).
    pub fn to_string(&self) -> (s: String)
        ensures
            s@ == color_name(*self),
    {
        String::from_str(to_css_color(self))
    }
}

/// The CSS colour name used to paint a block of this colour.
pub fn to_css_color(color: &Color) -> (s: &'static str)
    ensures
        s@ == color_name(*color),
{
    match color {
        Color::Primary(PrimaryColor::Red) => "red",
        Color::Primary(PrimaryColor::Blue) => "blue",
        Color::Primary(PrimaryColor::Yellow) => "yellow",
        Color::Orange => "orange",
        Color::Green => "green",
        Color::Purple => "purple",
        Color::Pink => "pink",
        Color::Cyan => "cyan",
        Color::Violet => "violet",
        Color::Lime => "lime",
        Color::Teal => "teal",
    }
}

/// The lower-case form of a string as std's `str::to_lowercase` computes it
/// (Unicode lower-casing); it is named here and not spelled out.
pub uninterp spec fn lowercase(s: Seq<char>) -> Seq<char>;

/// An ASCII upper-case letter made lower-case; any other character as it is.
pub open spec fn ascii_lower(c: char) -> char {
    if 'A' <= c <= 'Z' {
        ((c as u32) + 32) as char
    } else {
        c
    }
}

/// `s` with its ASCII upper-case letters made lower-case.
pub open spec fn ascii_lowercase(s: Seq<char>) -> Seq<char> {
    Seq::new(s.len(), |i: int| ascii_lower(s[i]))
}

/// Every character of `s` is ASCII.
pub open spec fn all_ascii(s: Seq<char>) -> bool {
    forall|i: int| 0 <= i < s.len() ==> (#[trigger] s[i] as u32) < 128
}

/// `str::to_lowercase` from std. Its result is named `lowercase`; on ASCII
/// text, Unicode lower-casing changes only the letters `A` to `Z`, each to
/// its lower-case letter, and that is stated.
#[verifier::external_body]
fn str_to_lowercase(s: &str) -> (r: String)
    ensures
        r@ == lowercase(s@),
        all_ascii(s@) ==> r@ == ascii_lowercase(s@),
{
    s.to_lowercase()
}

/// The colour whose name is exactly `t`, if any.
pub open spec fn color_named(t: Seq<char>) -> Option<Color> {
    if t == color_name(Color::Primary(PrimaryColor::Red)) {
        Some(Color::Primary(PrimaryColor::Red))
    } else if t == color_name(Color::Primary(PrimaryColor::Blue)) {
        Some(Color::Primary(PrimaryColor::Blue))
    } else if t == color_name(Color::Primary(PrimaryColor::Yellow)) {
        Some(Color::Primary(PrimaryColor::Yellow))
    } else if t == color_name(Color::Orange) {
        Some(Color::Orange)
    } else if t == color_name(Color::Green) {
        Some(Color::Green)
    } else if t == color_name(Color::Purple) {
        Some(Color::Purple)
    } else if t == color_name(Color::Pink) {
        Some(Color::Pink)
    } else if t == color_name(Color::Cyan) {
        Some(Color::Cyan)
    } else if t == color_name(Color::Violet) {
        Some(Color::Violet)
    } else if t == color_name(Color::Lime) {
        Some(Color::Lime)
    } else if t == color_name(Color::Teal) {
        Some(Color::Teal)
    } else {
        None
    }
}

/// The colour that a word names, in any mix of upper and lower case.
pub open spec fn color_from_name_spec(word: Seq<char>) -> Option<Color> {
    color_named(lowercase(word))
}

/// Whether `lower` is the name of `c`.
fn names(lower: &String, c: Color) -> (r: bool)
    ensures
        r == (lower@ == color_name(c)),
{
    *lower == c.to_string()
}

/// The colour that a word names, ignoring case: "Red", "red" and "RED" all
/// give Red; any other word gives `None`.
pub fn color_from_name(name: &str) -> (r: Option<Color>)
    ensures
        r == color_from_name_spec(name@),
        all_ascii(name@) ==> r == color_named(ascii_lowercase(name@)),
{
    let lower = str_to_lowercase(name);
    if names(&lower, Color::Primary(PrimaryColor::Red)) {
        Some(Color::Primary(PrimaryColor::Red))
    } else if names(&lower, Color::Primary(PrimaryColor::Blue)) {
        Some(Color::Primary(PrimaryColor::Blue))
    } else if names(&lower, Color::Primary(PrimaryColor::Yellow)) {
        Some(Color::Primary(PrimaryColor::Yellow))
    } else if names(&lower, Color::Orange) {
        Some(Color::Orange)
    } else if names(&lower, Color::Green) {
        Some(Color::Green)
    } else if names(&lower, Color::Purple) {
        Some(Color::Purple)
    } else if names(&lower, Color::Pink) {
        Some(Color::Pink)
    } else if names(&lower, Color::Cyan) {
        Some(Color::Cyan)
    } else if names(&lower, Color::Violet) {
        Some(Color::Violet)
    } else if names(&lower, Color::Lime) {
        Some(Color::Lime)
    } else if names(&lower, Color::Teal) {
        Some(Color::Teal)
    } else {
        None
    }
}

/// Every colour's name is ASCII, is unchanged by lower-casing, and names that
/// colour alone: so `color_from_name` reads each colour's name back as that
/// colour.
pub proof fn lemma_color_name_reads_back(c: Color)
    ensures
        all_ascii(color_name(c)),
        ascii_lowercase(color_name(c)) == color_name(c),
        color_named(color_name(c)) == Some(c),
{
    reveal_strlit("red");
    reveal_strlit("blue");
    reveal_strlit("yellow");
    reveal_strlit("orange");
    reveal_strlit("green");
    reveal_strlit("purple");
    reveal_strlit("pink");
    reveal_strlit("cyan");
    reveal_strlit("violet");
    reveal_strlit("lime");
    reveal_strlit("teal");
    let t = color_name(c);
    assert(ascii_lowercase(t) =~= t);
    assert forall|d: Color| d != c implies color_name(d) != t by {
        if color_name(d) == t {
            assert(color_name(d)[0] == t[0]);
            assert(color_name(d)[1] == t[1]);
            assert(color_name(d)[2] == t[2]);
        }
    }
}

} // verus!
