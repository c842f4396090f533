//! Text fields: the writable regions of a template, their optional effects,
//! and the two ways a caller rewrites field text before a render (replacing
//! whole fields in order, or substituting a literal substring everywhere).

use vstd::prelude::*;
use crate::Color;
use crate::text::{replace_seq, replace_chars, str_chars, chars_to_string};

verus! {

/// A pixel position, measured from the image's top-left corner.
#[derive(Clone, Copy, Debug, PartialEq, Eq, Structural)]
pub struct Point {
    pub x: usize,
    pub y: usize,
}

/// An optional text effect, drawn under the text itself. The ratios are
/// hundredths of the final font size: a shadow is offset down-right by
/// `round(size * ratio / 100)` pixels, a border thickens the silhouette by a
/// spread radius of `round(size * ratio / 100)` pixels.
#[derive(Clone, Copy, Debug, PartialEq, Eq, Structural)]
pub enum Effect {
    /// A thickened silhouette behind the text.
    Border { color: Color, size_ratio_hundredths: u32 },
    /// A copy of the text offset down-right, under everything else.
    Shadow { color: Color, offset_ratio_hundredths: u32 },
}

/// One writable region: its default text, an uppercase flag, the box it must
/// fit (top-left inclusive, bottom-right exclusive on neither side: `start`
/// strictly before `end`), the base font size the fitter shrinks from, the
/// fill color, and the effects.
#[derive(Debug, Clone)]
pub struct TextField {
    /// The text rendered into this field.
    pub text: String,
    /// Whether the text is forced to upper case before layout.
    pub uppercase: bool,
    /// Top-left corner of the field's box.
    pub start: Point,
    /// Bottom-right corner of the field's box.
    pub end: Point,
    /// Base font size in pixels; the fitter only ever shrinks it.
    pub text_size: usize,
    /// Fill color of the text.
    pub text_color: Color,
    /// Zero or more effects; at most one border and one shadow take part.
    pub effects: Vec<Effect>,
}

/// The shadow offset ratio the stock templates use: six hundredths of the
/// final font size.
pub const SHADOW_OFFSET_RATIO_HUNDREDTHS: u32 = 6;

/// The border size ratio the stock templates use: three hundredths of the
/// final font size.
pub const BORDER_SIZE_RATIO_HUNDREDTHS: u32 = 3;

/// The first shadow effect of the list, if any.
pub open spec fn first_shadow(effects: Seq<Effect>) -> Option<Effect>
    decreases effects.len(),
{
    if effects.len() == 0 {
        None
    } else if effects[0] is Shadow {
        Some(effects[0])
    } else {
        first_shadow(effects.drop_first())
    }
}

/// The first border effect of the list, if any.
pub open spec fn first_border(effects: Seq<Effect>) -> Option<Effect>
    decreases effects.len(),
{
    if effects.len() == 0 {
        None
    } else if effects[0] is Border {
        Some(effects[0])
    } else {
        first_border(effects.drop_first())
    }
}

/// Finds the first shadow effect.
pub fn find_shadow(effects: &Vec<Effect>) -> (r: Option<Effect>)
    ensures
        r == first_shadow(effects@),
{
    proof {
        assert(effects@.skip(0) =~= effects@);
    }
    let mut i: usize = 0;
    while i < effects.len()
        invariant
            i <= effects@.len(),
            first_shadow(effects@) == first_shadow(effects@.skip(i as int)),
        decreases effects@.len() - i,
    {
        proof {
            assert(effects@.skip(i as int)[0] == effects@[i as int]);
            assert(effects@.skip(i as int).drop_first() =~= effects@.skip(i + 1));
        }
        match effects[i] {
            Effect::Shadow { color, offset_ratio_hundredths } => {
                return Some(Effect::Shadow { color, offset_ratio_hundredths });
            },
            _ => {},
        }
        i = i + 1;
    }
    proof {
        assert(effects@.skip(effects@.len() as int) =~= Seq::<Effect>::empty());
    }
    None
}

/// Finds the first border effect.
pub fn find_border(effects: &Vec<Effect>) -> (r: Option<Effect>)
    ensures
        r == first_border(effects@),
{
    proof {
        assert(effects@.skip(0) =~= effects@);
    }
    let mut i: usize = 0;
    while i < effects.len()
        invariant
            i <= effects@.len(),
            first_border(effects@) == first_border(effects@.skip(i as int)),
        decreases effects@.len() - i,
    {
        proof {
            assert(effects@.skip(i as int)[0] == effects@[i as int]);
            assert(effects@.skip(i as int).drop_first() =~= effects@.skip(i + 1));
        }
        match effects[i] {
            Effect::Border { color, size_ratio_hundredths } => {
                return Some(Effect::Border { color, size_ratio_hundredths });
            },
            _ => {},
        }
        i = i + 1;
    }
    proof {
        assert(effects@.skip(effects@.len() as int) =~= Seq::<Effect>::empty());
    }
    None
}

/// A found shadow is one of the effects (and is a shadow).
pub proof fn lemma_first_shadow_in(effects: Seq<Effect>)
    ensures
        first_shadow(effects) is Some ==> exists|i: int|
            0 <= i < effects.len() && effects[i] == first_shadow(effects)->Some_0,
        first_shadow(effects) is Some ==> first_shadow(effects)->Some_0 is Shadow,
    decreases effects.len(),
{
    if effects.len() > 0 && !(effects[0] is Shadow) {
        lemma_first_shadow_in(effects.drop_first());
        if first_shadow(effects) is Some {
            let i = choose|i: int|
                0 <= i < effects.drop_first().len() && effects.drop_first()[i] == first_shadow(
                    effects.drop_first(),
                )->Some_0;
            assert(effects[i + 1] == first_shadow(effects)->Some_0);
        }
    }
}

/// A found border is one of the effects (and is a border).
pub proof fn lemma_first_border_in(effects: Seq<Effect>)
    ensures
        first_border(effects) is Some ==> exists|i: int|
            0 <= i < effects.len() && effects[i] == first_border(effects)->Some_0,
        first_border(effects) is Some ==> first_border(effects)->Some_0 is Border,
    decreases effects.len(),
{
    if effects.len() > 0 && !(effects[0] is Border) {
        lemma_first_border_in(effects.drop_first());
        if first_border(effects) is Some {
            let i = choose|i: int|
                0 <= i < effects.drop_first().len() && effects.drop_first()[i] == first_border(
                    effects.drop_first(),
                )->Some_0;
            assert(effects[i + 1] == first_border(effects)->Some_0);
        }
    }
}

/// Everything of the field except its text is kept.
pub open spec fn same_but_text(a: TextField, b: TextField) -> bool {
    &&& a.uppercase == b.uppercase
    &&& a.start == b.start
    &&& a.end == b.end
    &&& a.text_size == b.text_size
    &&& a.text_color == b.text_color
    &&& a.effects == b.effects
}

/// Replaces the text of the first fields with the override strings, in
/// order: field `i` takes override `i`; fields beyond the override count are
/// untouched, and extra overrides are ignored.
pub fn override_text_fields(text_fields: Vec<TextField>, override_strings: Vec<String>) -> (r: Vec<
    TextField,
>)
    ensures
        r@.len() == text_fields@.len(),
        forall|i: int|
            0 <= i < r@.len() ==> same_but_text(#[trigger] r@[i], text_fields@[i]),
        forall|i: int|
            0 <= i < r@.len() && i < override_strings@.len() ==> (#[trigger] r@[i]).text
                == override_strings@[i],
        forall|i: int|
            override_strings@.len() <= i < r@.len() ==> (#[trigger] r@[i]).text
                == text_fields@[i].text,
{
    let n = text_fields.len();
    let ghost orig = text_fields@;
    let mut rest = text_fields;
    let mut out: Vec<TextField> = Vec::new();
    let mut i: usize = 0;
    proof {
        assert(rest@ == orig.skip(0));
    }
    while i < n
        invariant
            i <= n,
            n == orig.len(),
            orig == text_fields@,
            rest@ == orig.skip(i as int),
            out@.len() == i,
            forall|k: int| 0 <= k < i ==> same_but_text(#[trigger] out@[k], orig[k]),
            forall|k: int|
                0 <= k < i && k < override_strings@.len() ==> (#[trigger] out@[k]).text
                    == override_strings@[k],
            forall|k: int|
                override_strings@.len() <= k < i ==> (#[trigger] out@[k]).text == orig[k].text,
        decreases n - i,
    {
        proof {
            assert(rest@[0] == orig[i as int]);
        }
        let mut f = rest.remove(0);
        proof {
            assert(rest@ =~= orig.skip(i + 1));
        }
        if i < override_strings.len() {
            f.text = override_strings[i].clone();
        }
        out.push(f);
        i = i + 1;
    }
    out
}

/// Replaces every occurrence of `old_text` in every field's text with
/// `new_text` (literal, leftmost-first, non-overlapping).
pub fn regex_text_fields(text_fields: Vec<TextField>, old_text: String, new_text: String) -> (r:
    Vec<TextField>)
    ensures
        r@.len() == text_fields@.len(),
        forall|i: int|
            0 <= i < r@.len() ==> same_but_text(#[trigger] r@[i], text_fields@[i]),
        forall|i: int|
            0 <= i < r@.len() ==> (#[trigger] r@[i]).text@ == replace_seq(
                text_fields@[i].text@,
                old_text@,
                new_text@,
            ),
{
    let pat = str_chars(old_text.as_str());
    let rep = str_chars(new_text.as_str());
    let n = text_fields.len();
    let ghost orig = text_fields@;
    let mut rest = text_fields;
    let mut out: Vec<TextField> = Vec::new();
    let mut i: usize = 0;
    proof {
        assert(rest@ == orig.skip(0));
    }
    while i < n
        invariant
            i <= n,
            n == orig.len(),
            orig == text_fields@,
            pat@ == old_text@,
            rep@ == new_text@,
            rest@ == orig.skip(i as int),
            out@.len() == i,
            forall|k: int| 0 <= k < i ==> same_but_text(#[trigger] out@[k], orig[k]),
            forall|k: int|
                0 <= k < i ==> (#[trigger] out@[k]).text@ == replace_seq(
                    orig[k].text@,
                    old_text@,
                    new_text@,
                ),
        decreases n - i,
    {
        proof {
            assert(rest@[0] == orig[i as int]);
        }
        let mut f = rest.remove(0);
        proof {
            assert(rest@ =~= orig.skip(i + 1));
        }
        let chars = str_chars(f.text.as_str());
        let replaced = replace_chars(&chars, &pat, &rep);
        f.text = chars_to_string(&replaced);
        out.push(f);
        i = i + 1;
    }
    out
}

} // verus!
