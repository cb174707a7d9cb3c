//! Reports: plain text and CSV renderings of the analyses, and the pieces
//! they are built from.
use vstd::prelude::*;
use crate::analysis::filters::{DependencyLayer, LayerSelection};
use crate::strings::{append_text, chars_of, decimal, decimal_text, push_char, text_from, texts_view};

pub mod csv;
pub mod text;

verus! {

/// The output formats the command line offers.
#[derive(Clone, Copy, Debug, PartialEq, Eq, Structural)]
pub enum OutputFormat {
    Text,
    Json,
    Csv,
}

/// The texts one after another.
pub open spec fn concat(parts: Seq<Seq<char>>) -> Seq<char>
    decreases parts.len(),
{
    if parts.len() == 0 {
        Seq::empty()
    } else {
        concat(parts.drop_last()) + parts.last()
    }
}

/// The texts one after another.
pub fn concat_texts(parts: &Vec<String>) -> (r: String)
    ensures
        r@ == concat(texts_view(parts@)),
{
    let ghost all = texts_view(parts@);
    let mut r = String::new();
    let mut i: usize = 0;
    while i < parts.len()
        invariant
            all == texts_view(parts@),
            i <= parts@.len(),
            r@ == concat(all.take(i as int)),
        decreases parts@.len() - i,
    {
        proof {
            assert(all.take(i + 1).drop_last() == all.take(i as int));
        }
        append_text(&mut r, parts[i].as_str());
        i = i + 1;
    }
    proof {
        assert(all.take(i as int) == all);
    }
    r
}

/// `n` spaces.
pub open spec fn spaces(n: nat) -> Seq<char> {
    Seq::new(n, |i: int| ' ')
}

/// The text right-aligned in a field of width `w`.
pub open spec fn pad_left(s: Seq<char>, w: nat) -> Seq<char> {
    if s.len() < w { spaces((w - s.len()) as nat) + s } else { s }
}

/// The text left-aligned in a field of width `w`.
pub open spec fn pad_right(s: Seq<char>, w: nat) -> Seq<char> {
    if s.len() < w { s + spaces((w - s.len()) as nat) } else { s }
}

/// `true` or `false`.
pub open spec fn bool_text(b: bool) -> Seq<char> {
    if b { "true"@ } else { "false"@ }
}

/// The layer's name as its debug form writes it.
pub open spec fn layer_debug(l: DependencyLayer) -> Seq<char> {
    match l {
        DependencyLayer::Statement => "Statement"@,
        DependencyLayer::Proof => "Proof"@,
    }
}

/// The selection's name as its debug form writes it.
pub open spec fn selection_debug(l: LayerSelection) -> Seq<char> {
    match l {
        LayerSelection::Statement => "Statement"@,
        LayerSelection::Proof => "Proof"@,
        LayerSelection::Both => "Both"@,
    }
}

/// `true` or `false`.
pub fn bool_string(b: bool) -> (r: String)
    ensures
        r@ == bool_text(b),
{
    if b { text_from("true") } else { text_from("false") }
}

/// The layer's debug name.
pub fn layer_string(l: DependencyLayer) -> (r: String)
    ensures
        r@ == layer_debug(l),
{
    match l {
        DependencyLayer::Statement => text_from("Statement"),
        DependencyLayer::Proof => text_from("Proof"),
    }
}

/// The selection's debug name.
pub fn selection_string(l: LayerSelection) -> (r: String)
    ensures
        r@ == selection_debug(l),
{
    match l {
        LayerSelection::Statement => text_from("Statement"),
        LayerSelection::Proof => text_from("Proof"),
        LayerSelection::Both => text_from("Both"),
    }
}

/// `n` spaces.
fn space_string(n: usize) -> (r: String)
    ensures
        r@ == spaces(n as nat),
{
    let mut r = String::new();
    let mut i: usize = 0;
    while i < n
        invariant
            i <= n,
            r@ == spaces(i as nat),
        decreases n - i,
    {
        push_char(&mut r, ' ');
        proof {
            assert(r@ == spaces((i + 1) as nat));
        }
        i = i + 1;
    }
    r
}

/// The text right-aligned in a field of width `w`.
pub fn pad_left_text(s: &str, w: usize) -> (r: String)
    ensures
        r@ == pad_left(s@, w as nat),
{
    let n = chars_of(s).len();
    if n < w {
        let mut r = space_string(w - n);
        append_text(&mut r, s);
        r
    } else {
        text_from(s)
    }
}

/// The text left-aligned in a field of width `w`.
pub fn pad_right_text(s: &str, w: usize) -> (r: String)
    ensures
        r@ == pad_right(s@, w as nat),
{
    let n = chars_of(s).len();
    let mut r = text_from(s);
    if n < w {
        let pad = space_string(w - n);
        append_text(&mut r, pad.as_str());
    }
    r
}

/// The number right-aligned in a field of width `w`.
pub fn number_left(n: usize, w: usize) -> (r: String)
    ensures
        r@ == pad_left(decimal(n as nat), w as nat),
{
    let d = decimal_text(n);
    pad_left_text(d.as_str(), w)
}

/// The texts of a list of pieces, as one text.
pub fn pieces(parts: Vec<String>) -> (r: String)
    ensures
        r@ == concat(texts_view(parts@)),
{
    concat_texts(&parts)
}

} // verus!
