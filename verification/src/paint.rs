//! Messages for a terminal: pieces of text, each with the ink it is shown in.
use colored::Colorize;
use vstd::prelude::*;

use crate::text::views;

verus! {

/// How a piece of a message is shown.
#[derive(Clone, Copy, Debug, PartialEq, Eq, Structural)]
pub enum Ink {
    Plain,
    Red,
    RedBold,
    GreenBold,
    Yellow,
    Italic,
    RedBoldItalic,
}

/// A piece of a message.
#[derive(Debug)]
pub struct Piece {
    pub ink: Ink,
    pub text: String,
}

impl View for Piece {
    type V = (Ink, Seq<char>);

    open spec fn view(&self) -> (Ink, Seq<char>) {
        (self.ink, self.text@)
    }
}

/// The contents of a list of pieces.
pub open spec fn piece_views(pieces: Seq<Piece>) -> Seq<(Ink, Seq<char>)> {
    Seq::new(pieces.len(), |i: int| pieces[i]@)
}

/// The escape sequence that ends coloured text.
pub open spec fn reset() -> Seq<char> {
    seq!['\u{1b}', '[', '0', 'm']
}

/// The escape sequence that selects an ink.
pub open spec fn selector(ink: Ink) -> Seq<char> {
    match ink {
        Ink::Plain => seq![],
        Ink::Red => seq!['\u{1b}', '[', '3', '1', 'm'],
        Ink::RedBold => seq!['\u{1b}', '[', '1', ';', '3', '1', 'm'],
        Ink::GreenBold => seq!['\u{1b}', '[', '1', ';', '3', '2', 'm'],
        Ink::Yellow => seq!['\u{1b}', '[', '3', '3', 'm'],
        Ink::Italic => seq!['\u{1b}', '[', '3', 'm'],
        Ink::RedBoldItalic => seq!['\u{1b}', '[', '1', ';', '3', ';', '3', '1', 'm'],
    }
}

/// `text` with `again` put behind every reset that it holds, so that the text after the reset is
/// shown like the text before it.
pub open spec fn reselected(text: Seq<char>, again: Seq<char>) -> Seq<char>
    decreases text.len(),
{
    if text.len() == 0 {
        seq![]
    } else if text.len() >= 4 && text.take(4) == reset() {
        reset() + again + reselected(text.skip(4), again)
    } else {
        seq![text[0]] + reselected(text.skip(1), again)
    }
}

/// `text` wrapped in the escape sequences for `ink`.
pub open spec fn coloured(ink: Ink, text: Seq<char>) -> Seq<char> {
    selector(ink) + reselected(text, selector(ink)) + reset()
}

/// `shown` is `text` in the given ink, on a terminal with or without colours.
pub open spec fn painted(ink: Ink, text: Seq<char>, shown: Seq<char>) -> bool {
    shown == text || (ink != Ink::Plain && shown == coloured(ink, text))
}

/// `parts` are the `pieces`, each of them painted.
pub open spec fn paints(pieces: Seq<(Ink, Seq<char>)>, parts: Seq<Seq<char>>) -> bool {
    &&& parts.len() == pieces.len()
    &&& forall|i: int|
        0 <= i < pieces.len() ==> #[trigger] painted(pieces[i].0, pieces[i].1, parts[i])
}

/// Texts one after the other.
pub open spec fn joined(parts: Seq<Seq<char>>) -> Seq<char>
    decreases parts.len(),
{
    if parts.len() == 0 {
        seq![]
    } else {
        joined(parts.drop_last()) + parts.last()
    }
}

/// `shown` is the message made of `pieces`, each of them painted.
pub open spec fn rendering(pieces: Seq<(Ink, Seq<char>)>, shown: Seq<char>) -> bool {
    exists|parts: Seq<Seq<char>>| #[trigger] paints(pieces, parts) && shown == joined(parts)
}

/// The texts of `pieces`, without any colour.
pub open spec fn plain_parts(pieces: Seq<(Ink, Seq<char>)>) -> Seq<Seq<char>> {
    Seq::new(pieces.len(), |i: int| pieces[i].1)
}

/// What a terminal shows of `text`: everything but the escape sequences. `inside` tells whether
/// an escape sequence is open where the text begins; the letter `m` closes it.
pub open spec fn visible(text: Seq<char>, inside: bool) -> Seq<char>
    decreases text.len(),
{
    if text.len() == 0 {
        seq![]
    } else if inside {
        visible(text.skip(1), text[0] != 'm')
    } else if text[0] == '\u{1b}' {
        visible(text.skip(1), true)
    } else {
        seq![text[0]] + visible(text.skip(1), false)
    }
}

/// `text` holds no escape character.
pub open spec fn escape_free(text: Seq<char>) -> bool {
    forall|i: int| 0 <= i < text.len() ==> #[trigger] text[i] != '\u{1b}'
}

/// Calls `Colorize::red` of the crate `colored` and writes the result out. The crate looks at the
/// environment and at the terminal to decide whether to emit colours, so both outcomes are
/// allowed for: the text alone, or the text between the escape sequences for red.
#[verifier::external_body]
fn paint_red(text: &str) -> (shown: String)
    ensures
        painted(Ink::Red, text@, shown@),
{
    text.red().to_string()
}

/// Calls `Colorize::red` and `Colorize::bold` of the crate `colored` and writes the result out,
/// with or without colours as the environment asks.
#[verifier::external_body]
fn paint_red_bold(text: &str) -> (shown: String)
    ensures
        painted(Ink::RedBold, text@, shown@),
{
    text.red().bold().to_string()
}

/// Calls `Colorize::green` and `Colorize::bold` of the crate `colored` and writes the result out,
/// with or without colours as the environment asks.
#[verifier::external_body]
fn paint_green_bold(text: &str) -> (shown: String)
    ensures
        painted(Ink::GreenBold, text@, shown@),
{
    text.green().bold().to_string()
}

/// Calls `Colorize::yellow` of the crate `colored` and writes the result out, with or without
/// colours as the environment asks.
#[verifier::external_body]
fn paint_yellow(text: &str) -> (shown: String)
    ensures
        painted(Ink::Yellow, text@, shown@),
{
    text.yellow().to_string()
}

/// Calls `Colorize::italic` of the crate `colored` and writes the result out, with or without
/// colours as the environment asks.
#[verifier::external_body]
fn paint_italic(text: &str) -> (shown: String)
    ensures
        painted(Ink::Italic, text@, shown@),
{
    text.italic().to_string()
}

/// Calls `Colorize::red`, `Colorize::italic` and `Colorize::bold` of the crate `colored` and
/// writes the result out, with or without colours as the environment asks.
#[verifier::external_body]
fn paint_red_bold_italic(text: &str) -> (shown: String)
    ensures
        painted(Ink::RedBoldItalic, text@, shown@),
{
    text.red().italic().bold().to_string()
}

impl Piece {
    /// A piece with a copy of `text`.
    pub fn new(ink: Ink, text: &str) -> (piece: Piece)
        ensures
            piece@ == (ink, text@),
    {
        Piece { ink, text: text.to_owned() }
    }

    /// Paints the piece.
    pub fn paint(&self) -> (shown: String)
        ensures
            painted(self.ink, self.text@, shown@),
    {
        let text = self.text.as_str();
        match self.ink {
            Ink::Plain => text.to_owned(),
            Ink::Red => paint_red(text),
            Ink::RedBold => paint_red_bold(text),
            Ink::GreenBold => paint_green_bold(text),
            Ink::Yellow => paint_yellow(text),
            Ink::Italic => paint_italic(text),
            Ink::RedBoldItalic => paint_red_bold_italic(text),
        }
    }
}

/// Joins texts.
pub fn join_texts(parts: &Vec<String>) -> (shown: String)
    ensures
        shown@ == joined(views(parts@)),
{
    let mut shown = String::new();
    let mut i: usize = 0;
    while i < parts.len()
        invariant
            i <= parts@.len(),
            shown@ == joined(views(parts@).take(i as int)),
        decreases parts@.len() - i,
    {
        assert(views(parts@).take(i + 1).drop_last() == views(parts@).take(i as int));
        shown.append(parts[i].as_str());
        i = i + 1;
    }
    assert(views(parts@).take(i as int) == views(parts@));
    shown
}

/// Paints the pieces of a message.
pub fn paint_pieces(pieces: &Vec<Piece>) -> (parts: Vec<String>)
    ensures
        paints(piece_views(pieces@), views(parts@)),
{
    let mut parts: Vec<String> = Vec::new();
    let mut i: usize = 0;
    while i < pieces.len()
        invariant
            i <= pieces@.len(),
            parts@.len() == i,
            forall|j: int|
                0 <= j < i ==> #[trigger] painted(
                    pieces@[j]@.0,
                    pieces@[j]@.1,
                    views(parts@)[j],
                ),
        decreases pieces@.len() - i,
    {
        let ghost before = parts@;
        parts.push(pieces[i].paint());
        assert forall|j: int| 0 <= j < i + 1 implies #[trigger] painted(
            pieces@[j]@.0,
            pieces@[j]@.1,
            views(parts@)[j],
        ) by {
            if j < i {
                assert(views(parts@)[j] == views(before)[j]);
            }
        }
        i = i + 1;
    }
    assert forall|j: int| 0 <= j < i implies #[trigger] painted(
        piece_views(pieces@)[j].0,
        piece_views(pieces@)[j].1,
        views(parts@)[j],
    ) by {
        assert(painted(pieces@[j]@.0, pieces@[j]@.1, views(parts@)[j]));
    }
    parts
}

/// Paints a message.
pub fn render(pieces: &Vec<Piece>) -> (shown: String)
    ensures
        rendering(piece_views(pieces@), shown@),
{
    let parts = paint_pieces(pieces);
    join_texts(&parts)
}

/// A message may come out without any colour.
pub proof fn plain_text_is_a_rendering(pieces: Seq<(Ink, Seq<char>)>)
    ensures
        rendering(pieces, joined(plain_parts(pieces))),
{
    assert(paints(pieces, plain_parts(pieces)));
}

proof fn lemma_visible_text(text: Seq<char>, rest: Seq<char>)
    requires
        escape_free(text),
    ensures
        visible(text + rest, false) == text + visible(rest, false),
    decreases text.len(),
{
    if text.len() == 0 {
        assert(text + rest == rest);
        assert(text + visible(rest, false) == visible(rest, false));
    } else {
        assert((text + rest).skip(1) == text.skip(1) + rest);
        assert forall|i: int| 0 <= i < text.skip(1).len() implies #[trigger] text.skip(1)[i]
            != '\u{1b}' by {
            assert(text[i + 1] != '\u{1b}');
        }
        lemma_visible_text(text.skip(1), rest);
        assert(seq![text[0]] + (text.skip(1) + visible(rest, false)) == text + visible(
            rest,
            false,
        ));
    }
}

/// The body of an escape sequence shows nothing.
proof fn lemma_visible_escape(body: Seq<char>, rest: Seq<char>)
    requires
        body.len() > 0,
        body.last() == 'm',
        forall|i: int| 0 <= i < body.len() - 1 ==> #[trigger] body[i] != 'm',
    ensures
        visible(body + rest, true) == visible(rest, false),
    decreases body.len(),
{
    assert((body + rest).skip(1) == body.skip(1) + rest);
    if body.len() == 1 {
        assert(body.skip(1) + rest == rest);
    } else {
        let tail = body.skip(1);
        assert forall|i: int| 0 <= i < tail.len() - 1 implies #[trigger] tail[i] != 'm' by {
            assert(body[i + 1] != 'm');
        }
        assert(body[0] != 'm');
        lemma_visible_escape(tail, rest);
    }
}

proof fn lemma_reselected_text(text: Seq<char>, again: Seq<char>)
    requires
        escape_free(text),
    ensures
        reselected(text, again) == text,
    decreases text.len(),
{
    if text.len() > 0 {
        assert forall|i: int| 0 <= i < text.skip(1).len() implies #[trigger] text.skip(1)[i]
            != '\u{1b}' by {
            assert(text[i + 1] != '\u{1b}');
        }
        lemma_reselected_text(text.skip(1), again);
        if text.len() >= 4 {
            assert(text.take(4)[0] == text[0]);
            assert(reset()[0] == '\u{1b}');
        }
        assert(seq![text[0]] + text.skip(1) == text);
    }
}

proof fn lemma_visible_painted(ink: Ink, text: Seq<char>, shown: Seq<char>, rest: Seq<char>)
    requires
        escape_free(text),
        painted(ink, text, shown),
    ensures
        visible(shown + rest, false) == text + visible(rest, false),
{
    if shown == text {
        lemma_visible_text(text, rest);
    } else {
        let sel = selector(ink);
        lemma_reselected_text(text, sel);
        let after = text + reset() + rest;
        assert(shown + rest == sel + after);
        assert((sel + after).skip(1) == sel.skip(1) + after);
        lemma_visible_escape(sel.skip(1), after);
        assert(after == text + (reset() + rest));
        lemma_visible_text(text, reset() + rest);
        assert((reset() + rest).skip(1) == reset().skip(1) + rest);
        lemma_visible_escape(reset().skip(1), rest);
    }
}

proof fn lemma_visible_parts(
    pieces: Seq<(Ink, Seq<char>)>,
    parts: Seq<Seq<char>>,
    rest: Seq<char>,
)
    requires
        paints(pieces, parts),
        forall|i: int| 0 <= i < pieces.len() ==> escape_free(#[trigger] pieces[i].1),
    ensures
        visible(joined(parts) + rest, false) == joined(plain_parts(pieces)) + visible(rest, false),
    decreases pieces.len(),
{
    if pieces.len() == 0 {
        assert(joined(parts) + rest == rest);
        assert(joined(plain_parts(pieces)) + visible(rest, false) == visible(rest, false));
    } else {
        let n = pieces.len() - 1;
        assert(painted(pieces[n].0, pieces[n].1, parts[n]));
        lemma_visible_painted(pieces[n].0, pieces[n].1, parts[n], rest);
        assert forall|i: int| 0 <= i < n implies #[trigger] painted(
            pieces.drop_last()[i].0,
            pieces.drop_last()[i].1,
            parts.drop_last()[i],
        ) by {
            assert(painted(pieces[i].0, pieces[i].1, parts[i]));
        }
        lemma_visible_parts(pieces.drop_last(), parts.drop_last(), parts[n] + rest);
        assert(joined(parts) + rest == joined(parts.drop_last()) + (parts[n] + rest));
        assert(plain_parts(pieces).drop_last() == plain_parts(pieces.drop_last()));
        assert(joined(plain_parts(pieces.drop_last())) + (pieces[n].1 + visible(rest, false))
            == joined(plain_parts(pieces)) + visible(rest, false));
    }
}

/// Colours never change what a message says: whatever comes out, a terminal shows the plain text.
pub proof fn colours_keep_the_text(pieces: Seq<(Ink, Seq<char>)>, shown: Seq<char>)
    requires
        rendering(pieces, shown),
        forall|i: int| 0 <= i < pieces.len() ==> escape_free(#[trigger] pieces[i].1),
    ensures
        visible(shown, false) == joined(plain_parts(pieces)),
{
    let parts = choose|parts: Seq<Seq<char>>| #[trigger]
        paints(pieces, parts) && shown == joined(parts);
    lemma_visible_parts(pieces, parts, seq![]);
    assert(joined(parts) + seq![] == shown);
    assert(joined(plain_parts(pieces)) + visible(seq![], false) == joined(plain_parts(pieces)));
}

/// Joining adds one text behind the other.
pub proof fn joining_appends(parts: Seq<Seq<char>>, part: Seq<char>)
    ensures
        joined(Seq::<Seq<char>>::empty()) == Seq::<char>::empty(),
        joined(parts.push(part)) == joined(parts) + part,
{
    assert(parts.push(part).drop_last() =~= parts);
}

/// What two pieces say together.
pub proof fn two_pieces_say(a: (Ink, Seq<char>), b: (Ink, Seq<char>))
    ensures
        joined(plain_parts(seq![a, b])) == a.1 + b.1,
{
    let none = Seq::<Seq<char>>::empty();
    assert(plain_parts(seq![a, b]) =~= none.push(a.1).push(b.1));
    joining_appends(none, a.1);
    joining_appends(none.push(a.1), b.1);
    assert(joined(none) + a.1 =~= a.1);
}

/// What three pieces say together.
pub proof fn three_pieces_say(a: (Ink, Seq<char>), b: (Ink, Seq<char>), c: (Ink, Seq<char>))
    ensures
        joined(plain_parts(seq![a, b, c])) == a.1 + b.1 + c.1,
{
    two_pieces_say(a, b);
    joining_appends(plain_parts(seq![a, b]), c.1);
    assert(plain_parts(seq![a, b, c]) =~= plain_parts(seq![a, b]).push(c.1));
}

/// A piece is shown as its text, or between escape sequences; plain text is shown as it is.
pub proof fn painting_wraps_text(ink: Ink, text: Seq<char>, shown: Seq<char>)
    requires
        painted(ink, text, shown),
        escape_free(text),
    ensures
        ink == Ink::Plain ==> shown == text,
        shown == text || shown == selector(ink) + text + reset(),
{
    lemma_reselected_text(text, selector(ink));
}

/// The contents of a list of pieces are the inks and texts of its pieces, one by one.
pub proof fn piece_views_are_the_pieces(pieces: Seq<Piece>)
    ensures
        piece_views(pieces).len() == pieces.len(),
        forall|i: int|
            0 <= i < pieces.len() ==> #[trigger] piece_views(pieces)[i] == (
                pieces[i].ink,
                pieces[i].text@,
            ),
{
}

/// The escape sequences of the inks.
pub proof fn inks_have_escape_sequences()
    ensures
        reset() == "\u{1b}[0m"@,
        selector(Ink::Plain) == ""@,
        selector(Ink::Red) == "\u{1b}[31m"@,
        selector(Ink::RedBold) == "\u{1b}[1;31m"@,
        selector(Ink::GreenBold) == "\u{1b}[1;32m"@,
        selector(Ink::Yellow) == "\u{1b}[33m"@,
        selector(Ink::Italic) == "\u{1b}[3m"@,
        selector(Ink::RedBoldItalic) == "\u{1b}[1;3;31m"@,
{
    reveal_strlit("\u{1b}[0m");
    reveal_strlit("");
    reveal_strlit("\u{1b}[31m");
    reveal_strlit("\u{1b}[1;31m");
    reveal_strlit("\u{1b}[1;32m");
    reveal_strlit("\u{1b}[33m");
    reveal_strlit("\u{1b}[3m");
    reveal_strlit("\u{1b}[1;3;31m");
}

} // verus!
