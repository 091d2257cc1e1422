use vstd::prelude::*;

use crate::color::Color;
use crate::geometry::UnitInterval;

verus! {

/// The colour drawn over the image for fitted curves unless another is chosen.
pub fn gold() -> (c: Color)
    ensures
        c == (Color { r: 218, g: 165, b: 32, a: 255 }),
{
    Color { r: 218, g: 165, b: 32, a: 255 }
}

/// Configuration of the extraction pipeline.
#[derive(Clone, Copy, Debug)]
pub struct Settings {
    /// Minimum fraction of columns a colour must occupy to count as a curve.
    pub step1_width_minimial_fraction: UnitInterval,
    /// Maximum fraction of a column a colour may fill.
    pub step1_height_maximal_fraction: UnitInterval,
    /// Whether achromatic colours are ignored.
    pub step1_ignore_gray: bool,
    /// Number of morphological opening passes used to test a mask for noise.
    pub step1_close_count: u8,
    /// Maximum colour distance inside one colour cluster.
    pub step1_step2_color_radius: u8,
    /// Minimum fraction of the width of a range with a constant run count.
    pub step3_min_width_fraction: UnitInterval,
    /// Largest vertical jump, as a fraction of the height, bridged when stitching.
    pub step4_component_jump_height_fraction: UnitInterval,
    /// Colour used to draw the fitted curves, if any.
    pub step6_fit_graph_color: Option<Color>,
}

impl Settings {
    pub open spec fn wf(&self) -> bool {
        &&& self.step1_width_minimial_fraction.wf()
        &&& self.step1_height_maximal_fraction.wf()
        &&& self.step3_min_width_fraction.wf()
        &&& self.step4_component_jump_height_fraction.wf()
    }
}

impl Default for Settings {
    fn default() -> (s: Settings)
        ensures
            s.wf(),
            s.step1_step2_color_radius == 5,
            s.step1_width_minimial_fraction == (UnitInterval { num: 3, den: 10 }),
            s.step1_height_maximal_fraction == (UnitInterval { num: 1, den: 10 }),
            s.step1_close_count == 0,
            s.step1_ignore_gray,
            s.step3_min_width_fraction == (UnitInterval { num: 1, den: 20 }),
            s.step4_component_jump_height_fraction == (UnitInterval { num: 1, den: 50 }),
            s.step6_fit_graph_color == Some(Color { r: 218, g: 165, b: 32, a: 255 }),
    {
        Settings {
            step1_step2_color_radius: 5,
            step1_width_minimial_fraction: UnitInterval { num: 3, den: 10 },
            step1_height_maximal_fraction: UnitInterval { num: 1, den: 10 },
            step1_close_count: 0,
            step1_ignore_gray: true,
            step3_min_width_fraction: UnitInterval { num: 1, den: 20 },
            step4_component_jump_height_fraction: UnitInterval { num: 1, den: 50 },
            step6_fit_graph_color: Some(gold()),
        }
    }
}

} // verus!
