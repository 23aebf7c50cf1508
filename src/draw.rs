//! Random draws of colors, from a generator that the caller owns and seeds.
use crate::color::{Color, FULL};
use rand::rngs::StdRng;
use rand::Rng;
use vstd::prelude::*;

verus! {

#[verifier::external_type_specification]
#[verifier::external_body]
pub struct ExStdRng(StdRng);

/// Relies on rand's `Rng::gen_range` on the half-open range `0..FULL`: it
/// returns a value of that range, drawn uniformly.
#[verifier::external_body]
fn draw_channel(rng: &mut StdRng) -> (v: u16)
    ensures
        v < FULL,
{
    rng.gen_range(0..FULL)
}

/// A color drawn uniformly from the unit cube, one channel after another.
pub fn random_color(rng: &mut StdRng) -> (c: Color)
    ensures
        c.wf(),
{
    let r = draw_channel(rng);
    let g = draw_channel(rng);
    let b = draw_channel(rng);
    Color { r, g, b }
}

} // verus!
