//! Deterministic per-node coloring: a hue-dispersed color derived from the
//! index part of an entity identity, and the ANSI escape sequences that
//! start and end a colored span.

use crate::store::EntityId;
use bevy_color::ColorToPacked;
use crate::text::dec_digits;
use vstd::prelude::*;

verus! {

/// The 8-bit RGB triple that the hue-dispersed scheme assigns to a slot
/// index. The scheme spaces consecutive indices far apart on the hue
/// circle, so neighbouring indices stay visually distinguishable.
pub uninterp spec fn rgb_of_index(index: u32) -> (u8, u8, u8);

/// The color assigned to an entity. It depends only on the index part of
/// the identity, never on the generation: a reused slot keeps its color.
pub open spec fn spec_color_of(id: EntityId) -> (u8, u8, u8) {
    rgb_of_index(id.index)
}

/// Relies on bevy_color: `Oklcha::sequential_dispersed(index)` is a pure
/// function of the index (a golden-ratio hue step in Oklch space), here
/// converted through `LinearRgba` and packed to 8-bit channels with
/// `to_u8_array_no_alpha`, which drops the alpha channel.
#[verifier::external_body]
fn dispersed_rgb(index: u32) -> (c: (u8, u8, u8))
    ensures
        c == rgb_of_index(index),
{
    let [red, green, blue] = bevy_color::LinearRgba::from(
        bevy_color::Oklcha::sequential_dispersed(index),
    ).to_u8_array_no_alpha();
    (red, green, blue)
}

/// The color drawn for an entity, matching the dispersed gizmo scheme.
pub fn color_from_entity(id: EntityId) -> (c: (u8, u8, u8))
    ensures
        c == spec_color_of(id),
{
    dispersed_rgb(id.index)
}

/// The ANSI start sequence that selects a 24-bit foreground color.
pub open spec fn ansi_color_prefix(c: (u8, u8, u8)) -> Seq<char> {
    seq!['\u{1b}', '[', '3', '8', ';', '2', ';'] + dec_digits(c.0 as nat) + seq![';']
        + dec_digits(c.1 as nat) + seq![';'] + dec_digits(c.2 as nat) + seq!['m']
}

/// The ANSI sequence that resets all styling.
pub open spec fn ansi_reset() -> Seq<char> {
    seq!['\u{1b}', '[', '0', 'm']
}

/// Relies on nu_ansi_term: the prefix of `Color::Rgb(r, g, b)` is the
/// escape sequence `ESC [ 38;2;<r>;<g>;<b> m`, the channels in decimal
/// (the style holds a foreground color and nothing else).
#[verifier::external_body]
pub(crate) fn ansi_rgb_prefix(c: (u8, u8, u8)) -> (s: String)
    ensures
        s@ == ansi_color_prefix(c),
{
    nu_ansi_term::Color::Rgb(c.0, c.1, c.2).prefix().to_string()
}

/// Relies on nu_ansi_term: the suffix of any non-plain style, so of any
/// colored one, is the reset sequence `ESC [ 0 m`.
#[verifier::external_body]
pub(crate) fn ansi_rgb_suffix(c: (u8, u8, u8)) -> (s: String)
    ensures
        s@ == ansi_reset(),
{
    nu_ansi_term::Color::Rgb(c.0, c.1, c.2).suffix().to_string()
}

} // verus!
