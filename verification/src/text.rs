use vstd::prelude::*;
use crate::colour::{color_from_name, color_from_name_spec, Color};
use crate::syntax::push_char;

verus! {

/// Whether a character has the Unicode `Alphabetic` property, as std's
/// `char::is_alphabetic` decides it; the property is a large table, named
/// here and not spelled out.
pub uninterp spec fn is_alphabetic(c: char) -> bool;

/// `char::is_alphabetic` from std (named `is_alphabetic`).
#[verifier::external_body]
fn char_is_alphabetic(c: char) -> (r: bool)
    ensures
        r == is_alphabetic(c),
{
    c.is_alphabetic()
}

/// The pieces of `s` between non-alphabetic characters, as `str::split`
/// with a non-alphabetic separator gives them: `k` separators give `k + 1`
/// pieces, some of them empty.
pub open spec fn words(s: Seq<char>) -> Seq<Seq<char>>
    decreases s.len(),
{
    if s.len() == 0 {
        seq![Seq::empty()]
    } else {
        let w = words(s.drop_last());
        let c = s.last();
        if is_alphabetic(c) {
            w.update(w.len() - 1, w.last().push(c))
        } else {
            w.push(Seq::empty())
        }
    }
}

/// The colours that the words name, in order; words that name no colour are
/// skipped.
pub open spec fn named_colors(ws: Seq<Seq<char>>) -> Seq<Color>
    decreases ws.len(),
{
    if ws.len() == 0 {
        Seq::empty()
    } else {
        named_colors(ws.drop_last()) + match color_from_name_spec(ws.last()) {
            Some(c) => seq![c],
            None => Seq::empty(),
        }
    }
}

/// There is always at least one piece.
proof fn lemma_words_nonempty(s: Seq<char>)
    ensures
        words(s).len() >= 1,
    decreases s.len(),
{
    if s.len() > 0 {
        lemma_words_nonempty(s.drop_last());
    }
}

/// The colours named in a text, in order: the text is cut into words at
/// every non-alphabetic character, and each word that names a colour (in any
/// case) gives that colour.
pub fn colors_from_text(text: &str) -> (r: Vec<Color>)
    ensures
        r@ == named_colors(words(text@)),
{
    let mut out: Vec<Color> = Vec::new();
    let mut word = String::new();
    for c in it: text.chars()
        invariant
            it.seq() == text@,
            words(text@.take(it.index())).len() >= 1,
            out@ == named_colors(words(text@.take(it.index())).drop_last()),
            word@ == words(text@.take(it.index())).last(),
    {
        let ghost before = text@.take(it.index());
        assert(text@.take(it.index() + 1).drop_last() == before);
        assert(text@.take(it.index() + 1).last() == c);
        if char_is_alphabetic(c) {
            push_char(&mut word, c);
            proof {
                let w = words(before);
                assert(words(text@.take(it.index() + 1)) == w.update(w.len() - 1, w.last().push(c)));
                assert(w.update(w.len() - 1, w.last().push(c)).drop_last() =~= w.drop_last());
            }
        } else {
            let named = color_from_name(word.as_str());
            match named {
                Some(col) => out.push(col),
                None => {},
            }
            word = String::new();
            proof {
                let w = words(before);
                assert(w.push(Seq::empty()).drop_last() =~= w);
            }
        }
        proof {
            lemma_words_nonempty(text@.take(it.index() + 1));
        }
    }
    assert(text@.take(text@.len() as int) == text@);
    let named = color_from_name(word.as_str());
    match named {
        Some(col) => out.push(col),
        None => {},
    }
    out
}

/// The maximal runs of `s` whose characters are all alphabetic or all not,
/// each with whether it is alphabetic, in order.
pub open spec fn runs(s: Seq<char>) -> Seq<(Seq<char>, bool)>
    decreases s.len(),
{
    if s.len() == 0 {
        Seq::empty()
    } else {
        let r = runs(s.drop_last());
        let c = s.last();
        let a = is_alphabetic(c);
        if r.len() > 0 && r.last().1 == a {
            r.update(r.len() - 1, (r.last().0.push(c), a))
        } else {
            r.push((seq![c], a))
        }
    }
}

/// The colour a run is painted in: an alphabetic run that names a colour is
/// painted in it; every other run is plain.
pub open spec fn run_color(run: (Seq<char>, bool)) -> Option<Color> {
    if run.1 {
        color_from_name_spec(run.0)
    } else {
        None
    }
}

/// A text has runs exactly when it is not empty.
proof fn lemma_runs_nonempty(s: Seq<char>)
    ensures
        (runs(s).len() == 0) == (s.len() == 0),
    decreases s.len(),
{
    if s.len() > 0 {
        lemma_runs_nonempty(s.drop_last());
    }
}

/// The chunks in which a text is shown: its maximal alphabetic and
/// non-alphabetic runs, in order, each with the colour of the word it spells
/// (`None` for a run that is not a colour's name and for punctuation or
/// spaces).
pub fn colour_chunks(text: &str) -> (r: Vec<(String, Option<Color>)>)
    ensures
        r@.len() == runs(text@).len(),
        forall|i: int|
            0 <= i < r@.len() ==> (#[trigger] r@[i]).0@ == runs(text@)[i].0 && r@[i].1 == run_color(
                runs(text@)[i],
            ),
{
    let mut out: Vec<(String, Option<Color>)> = Vec::new();
    let mut current = String::new();
    let mut in_word = false;
    let mut has_text = false;
    for c in it: text.chars()
        invariant
            it.seq() == text@,
            has_text == (it.index() > 0),
            it.index() == 0 ==> !in_word && current@ == Seq::<char>::empty() && out@.len() == 0,
            it.index() > 0 ==> {
                let rs = runs(text@.take(it.index()));
                &&& rs.len() >= 1
                &&& out@.len() == rs.len() - 1
                &&& current@ == rs.last().0
                &&& in_word == rs.last().1
            },
            forall|i: int|
                0 <= i < out@.len() ==> (#[trigger] out@[i]).0@ == runs(text@.take(it.index()))[i].0
                    && out@[i].1 == run_color(runs(text@.take(it.index()))[i]),
    {
        let ghost before = text@.take(it.index());
        let ghost rs = runs(before);
        let ghost old_out = out@;
        assert(text@.take(it.index() + 1).drop_last() == before);
        assert(text@.take(it.index() + 1).last() == c);
        proof {
            lemma_runs_nonempty(before);
        }
        let is_alpha = char_is_alphabetic(c);
        if is_alpha != in_word {
            if has_text {
                let color = if in_word {
                    color_from_name(current.as_str())
                } else {
                    None
                };
                out.push((current, color));
                current = String::new();
            }
            in_word = is_alpha;
        }
        push_char(&mut current, c);
        has_text = true;
        proof {
            let rs2 = runs(text@.take(it.index() + 1));
            assert forall|i: int| 0 <= i < out@.len() implies (#[trigger] out@[i]).0@ == rs2[i].0
                && out@[i].1 == run_color(rs2[i]) by {
                if i < old_out.len() {
                    assert(out@[i] == old_out[i]);
                }
            }
        }
    }
    if has_text {
        let color = if in_word {
            color_from_name(current.as_str())
        } else {
            None
        };
        out.push((current, color));
    }
    assert(text@.take(text@.len() as int) == text@);
    proof {
        lemma_runs_nonempty(text@);
    }
    out
}

/// The texts of the runs, put back together.
pub open spec fn joined(rs: Seq<(Seq<char>, bool)>) -> Seq<char>
    decreases rs.len(),
{
    if rs.len() == 0 {
        Seq::empty()
    } else {
        joined(rs.drop_last()) + rs.last().0
    }
}

/// The chunks of a text are its maximal runs: put back together they give
/// the text, none is empty, each holds only alphabetic or only
/// non-alphabetic characters as its flag says, and neighbouring runs differ
/// in that flag.
pub proof fn lemma_runs_partition_text(s: Seq<char>)
    ensures
        joined(runs(s)) == s,
        forall|i: int| 0 <= i < runs(s).len() ==> (#[trigger] runs(s)[i]).0.len() > 0,
        forall|i: int, j: int|
            0 <= i < runs(s).len() && 0 <= j < runs(s)[i].0.len() ==> is_alphabetic(
                #[trigger] runs(s)[i].0[j],
            ) == runs(s)[i].1,
        forall|i: int| 0 <= i < runs(s).len() - 1 ==> (#[trigger] runs(s)[i]).1 != runs(s)[i + 1].1,
    decreases s.len(),
{
    if s.len() > 0 {
        let p = s.drop_last();
        let c = s.last();
        let r = runs(p);
        lemma_runs_partition_text(p);
        let a = is_alphabetic(c);
        if r.len() > 0 && r.last().1 == a {
            let r2 = r.update(r.len() - 1, (r.last().0.push(c), a));
            assert(r2.drop_last() =~= r.drop_last());
            assert(joined(r) == joined(r.drop_last()) + r.last().0);
            assert(joined(r2) =~= joined(r) + seq![c]);
            assert forall|i: int, j: int|
                0 <= i < r2.len() && 0 <= j < r2[i].0.len() implies is_alphabetic(
                #[trigger] r2[i].0[j],
            ) == r2[i].1 by {
                if i == r2.len() - 1 && j < r.last().0.len() {
                    assert(r2[i].0[j] == r[i].0[j]);
                }
            }
            assert forall|i: int| 0 <= i < r2.len() - 1 implies (#[trigger] r2[i]).1 != r2[i + 1].1 by {
                assert(r2[i] == r[i]);
            }
        } else {
            let r2 = r.push((seq![c], a));
            assert(r2.drop_last() =~= r);
            assert forall|i: int| 0 <= i < r2.len() - 1 implies (#[trigger] r2[i]).1 != r2[i + 1].1 by {
                assert(r2[i] == r[i]);
                if i < r.len() - 1 {
                    assert(r2[i + 1] == r[i + 1]);
                } else {
                    assert(r.len() > 0);
                    assert(r.last().1 != a);
                }
            }
        }
        assert(p.push(c) =~= s);
    }
}

/// Whether a word names a colour.
pub open spec fn names_a_color(w: Seq<char>) -> bool {
    color_from_name_spec(w) is Some
}

/// The colour a naming word names.
pub open spec fn named_color(w: Seq<char>) -> Color {
    color_from_name_spec(w).unwrap()
}

/// One colour per naming word: the colours named in a list of words are, in
/// order, the colours of exactly those words that name one. So a text that
/// repeats a name repeats the colour.
pub proof fn lemma_named_colors_one_per_naming_word(ws: Seq<Seq<char>>)
    ensures
        named_colors(ws) == ws.filter(|w: Seq<char>| names_a_color(w)).map_values(
            |w: Seq<char>| named_color(w),
        ),
        named_colors(ws).len() == ws.filter(|w: Seq<char>| names_a_color(w)).len(),
    decreases ws.len(),
{
    let pred = |w: Seq<char>| names_a_color(w);
    let f = |w: Seq<char>| named_color(w);
    if ws.len() == 0 {
        reveal(Seq::filter);
        assert(ws.filter(pred) =~= Seq::<Seq<char>>::empty());
        assert(ws.filter(pred).map_values(f) =~= Seq::<Color>::empty());
    } else {
        let p = ws.drop_last();
        lemma_named_colors_one_per_naming_word(p);
        p.lemma_filter_push(ws.last(), pred);
        assert(p.push(ws.last()) =~= ws);
        if pred(ws.last()) {
            assert(ws.filter(pred).map_values(f) =~= p.filter(pred).map_values(f).push(
                named_color(ws.last()),
            ));
            assert(named_colors(ws) =~= named_colors(p) + seq![named_color(ws.last())]);
        } else {
            assert(named_colors(ws) =~= named_colors(p) + Seq::<Color>::empty());
        }
    }
}

/// Cutting `s1 c s2` into words, where `c` is not alphabetic, gives the words
/// of `s1` followed by those of `s2`.
proof fn lemma_words_split(s1: Seq<char>, c: char, s2: Seq<char>)
    requires
        !is_alphabetic(c),
    ensures
        words(s1.push(c) + s2) == words(s1) + words(s2),
    decreases s2.len(),
{
    lemma_words_nonempty(s1);
    lemma_words_nonempty(s2);
    if s2.len() == 0 {
        assert(s1.push(c) + s2 =~= s1.push(c));
        assert(s1.push(c).drop_last() =~= s1);
        assert(words(s2) =~= seq![Seq::<char>::empty()]);
        assert(words(s1).push(Seq::empty()) =~= words(s1) + words(s2));
    } else {
        let s2p = s2.drop_last();
        let d = s2.last();
        lemma_words_split(s1, c, s2p);
        lemma_words_nonempty(s2p);
        let whole = s1.push(c) + s2;
        assert(whole.drop_last() =~= s1.push(c) + s2p);
        assert(whole.last() == d);
        let a = words(s1);
        let b = words(s2p);
        if is_alphabetic(d) {
            assert((a + b).update((a + b).len() - 1, (a + b).last().push(d)) =~= a + b.update(
                b.len() - 1,
                b.last().push(d),
            ));
        } else {
            assert((a + b).push(Seq::empty()) =~= a + b.push(Seq::empty()));
        }
    }
}

/// The colours named in a list of words put together are those of each part.
proof fn lemma_named_colors_concat(a: Seq<Seq<char>>, b: Seq<Seq<char>>)
    ensures
        named_colors(a + b) == named_colors(a) + named_colors(b),
    decreases b.len(),
{
    if b.len() == 0 {
        assert(a + b =~= a);
        assert(named_colors(a) + named_colors(b) =~= named_colors(a));
    } else {
        lemma_named_colors_concat(a, b.drop_last());
        assert((a + b).drop_last() =~= a + b.drop_last());
        assert((a + b).last() == b.last());
        let extra = match color_from_name_spec(b.last()) {
            Some(c) => seq![c],
            None => Seq::<Color>::empty(),
        };
        assert(named_colors(a) + named_colors(b.drop_last()) + extra =~= named_colors(a) + (
        named_colors(b.drop_last()) + extra));
    }
}

/// Two texts joined by a non-alphabetic character name the colours of the
/// first followed by those of the second: `colors_from_text("red red")` is
/// `colors_from_text("red")` twice.
pub proof fn lemma_colors_of_joined_texts(s1: Seq<char>, c: char, s2: Seq<char>)
    requires
        !is_alphabetic(c),
    ensures
        named_colors(words(s1.push(c) + s2)) == named_colors(words(s1)) + named_colors(words(s2)),
{
    lemma_words_split(s1, c, s2);
    lemma_named_colors_concat(words(s1), words(s2));
}

} // verus!
