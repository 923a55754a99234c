//! Procedural style values that are independent from source imagery.
use vstd::prelude::*;

verus! {

/// An RGB palette entry.
#[derive(Clone, Copy, Debug, Eq, PartialEq, Structural)]
pub struct Rgb8 {
    /// Red channel.
    pub red: u8,
    /// Green channel.
    pub green: u8,
    /// Blue channel.
    pub blue: u8,
}

/// Deterministic ordinary-scene grammar owned by the style pack.
#[derive(Clone, Copy, Debug, Eq, PartialEq)]
pub struct OrdinaryGrammar {
    /// Terrain fill and sparse alternate index.
    pub terrain: [u8; 2],
    /// Light and dark canopy indexes.
    pub canopy: [u8; 2],
    /// Light and dark athletic-surface indexes.
    pub athletic: [u8; 2],
    /// Roof, light wall, and dark wall indexes.
    pub building: [u8; 3],
    /// Hard cast-shadow palette index.
    pub shadow: u8,
    /// One-logical-pixel outline palette index.
    pub outline: u8,
    /// Shadow displacement east in world millimeters.
    pub shadow_x_mm: i64,
    /// Shadow displacement north in world millimeters.
    pub shadow_y_mm: i64,
    /// World-anchored tree placement grid spacing.
    pub tree_spacing_mm: i64,
    /// Nominal faceted crown radius.
    pub tree_radius_mm: i64,
    /// Nominal faceted crown height.
    pub tree_height_mm: i64,
    /// Sparse terrain dither period in projected logical pixels.
    pub terrain_dither_period: u8,
    /// Athletic-surface dither period in projected logical pixels.
    pub athletic_dither_period: u8,
}

/// The immutable subset of a style pack needed by the bootstrap renderer.
#[derive(Clone, Debug, Eq, PartialEq)]
pub struct StylePack {
    /// Stable, versioned style identifier.
    pub id: &'static str,
    /// Fixed subpixels per screen pixel.
    pub subpixels_per_pixel: i64,
    /// World millimeters represented by one horizontal isometric half-step.
    pub world_mm_per_half_step: i64,
    /// Vertical exaggeration denominator.
    pub elevation_mm_per_pixel: i64,
    /// Complete indexed palette.
    pub palette: Vec<Rgb8>,
    /// Ordinary Stanford scene grammar.
    pub ordinary: OrdinaryGrammar,
}

/// Style validation error.
#[derive(Clone, Copy, Debug, Eq, PartialEq, Structural)]
pub enum StyleError {
    /// The palette is empty or exceeds the 128-color contract.
    PaletteSize,
    /// A projection or logical-pixel scale is not positive.
    NonPositiveScale,
    /// A grammar palette index is not present in the palette.
    PaletteIndex,
    /// An ordinary-scene grammar measurement or period is invalid.
    InvalidGrammar,
}

/// The description of each failure.
pub open spec fn style_error_message(e: StyleError) -> Seq<char> {
    match e {
        StyleError::PaletteSize => "palette must contain 1 to 128 colors"@,
        StyleError::NonPositiveScale => "style scales must be positive"@,
        StyleError::PaletteIndex => "style grammar palette index is invalid"@,
        StyleError::InvalidGrammar => "style grammar values must be positive"@,
    }
}

impl StyleError {
    /// Human-readable description.
    pub fn message(&self) -> (r: &'static str)
        ensures
            r@ == style_error_message(*self),
    {
        match self {
            StyleError::PaletteSize => "palette must contain 1 to 128 colors",
            StyleError::NonPositiveScale => "style scales must be positive",
            StyleError::PaletteIndex => "style grammar palette index is invalid",
            StyleError::InvalidGrammar => "style grammar values must be positive",
        }
    }
}

/// The eleven grammar palette indexes in validation order.
pub open spec fn grammar_indexes(g: OrdinaryGrammar) -> Seq<u8> {
    seq![
        g.terrain[0],
        g.terrain[1],
        g.canopy[0],
        g.canopy[1],
        g.athletic[0],
        g.athletic[1],
        g.building[0],
        g.building[1],
        g.building[2],
        g.shadow,
        g.outline
    ]
}

/// The outcome of style validation: the first violated rule, in checking order.
pub open spec fn style_verdict(s: StylePack) -> Result<(), StyleError> {
    let n = s.palette@.len();
    if n == 0 || n > 128 {
        Err(StyleError::PaletteSize)
    } else if s.subpixels_per_pixel <= 0 || s.world_mm_per_half_step <= 0 || s.elevation_mm_per_pixel <= 0 {
        Err(StyleError::NonPositiveScale)
    } else if exists|k: int| 0 <= k < 11 && #[trigger] grammar_indexes(s.ordinary)[k] >= n {
        Err(StyleError::PaletteIndex)
    } else if s.ordinary.tree_spacing_mm <= 0 || s.ordinary.tree_radius_mm <= 0 || s.ordinary.tree_height_mm <= 0
        || s.ordinary.terrain_dither_period == 0 || s.ordinary.athletic_dither_period == 0 {
        Err(StyleError::InvalidGrammar)
    } else {
        Ok(())
    }
}

fn rgb(red: u8, green: u8, blue: u8) -> (r: Rgb8)
    ensures
        r == (Rgb8 { red, green, blue }),
{
    Rgb8 { red, green, blue }
}

/// The sixteen colors of the Stanford v1 palette.
pub open spec fn stanford_v1_palette() -> Seq<Rgb8> {
    seq![
        Rgb8 { red: 239, green: 225, blue: 190 },
        Rgb8 { red: 185, green: 184, blue: 139 },
        Rgb8 { red: 111, green: 132, blue: 88 },
        Rgb8 { red: 70, green: 96, blue: 66 },
        Rgb8 { red: 81, green: 133, blue: 151 },
        Rgb8 { red: 171, green: 92, blue: 69 },
        Rgb8 { red: 121, green: 60, blue: 49 },
        Rgb8 { red: 231, green: 202, blue: 157 },
        Rgb8 { red: 202, green: 184, blue: 150 },
        Rgb8 { red: 128, green: 126, blue: 115 },
        Rgb8 { red: 84, green: 83, blue: 78 },
        Rgb8 { red: 54, green: 50, blue: 48 },
        Rgb8 { red: 211, green: 183, blue: 98 },
        Rgb8 { red: 157, green: 147, blue: 91 },
        Rgb8 { red: 245, green: 238, blue: 211 },
        Rgb8 { red: 35, green: 37, blue: 37 },
    ]
}

/// The ordinary-scene grammar values of Stanford v1 other than its palette indexes.
pub open spec fn stanford_v1_grammar_values(g: OrdinaryGrammar) -> bool {
    &&& g.shadow_x_mm == 12_000
    &&& g.shadow_y_mm == -4_000
    &&& g.tree_radius_mm == 6_500
    &&& g.tree_height_mm == 12_000
    &&& g.terrain_dither_period == 16
    &&& g.athletic_dither_period == 8
}

impl StylePack {
    /// Whether the style passes every hard contract.
    pub open spec fn valid(&self) -> bool {
        style_verdict(*self) is Ok
    }

    /// The original Stanford v1 bootstrap palette and camera contract.
    pub fn stanford_v1() -> (r: StylePack)
        ensures
            r.id@ == "stanford_v1.ordinary.1"@,
            r.subpixels_per_pixel == 256,
            r.world_mm_per_half_step == 1_000,
            r.elevation_mm_per_pixel == 1_000,
            r.palette@.len() == 16,
            r.ordinary.terrain@ == seq![1u8, 0u8],
            r.ordinary.canopy@ == seq![2u8, 3u8],
            r.ordinary.athletic@ == seq![12u8, 13u8],
            r.ordinary.building@ == seq![5u8, 7u8, 6u8],
            r.ordinary.shadow == 10,
            r.ordinary.outline == 11,
            r.ordinary.tree_spacing_mm == 16_000,
            stanford_v1_grammar_values(r.ordinary),
            r.palette@ == stanford_v1_palette(),
            r.valid(),
    {
        let palette = vec![
            rgb(239, 225, 190),
            rgb(185, 184, 139),
            rgb(111, 132, 88),
            rgb(70, 96, 66),
            rgb(81, 133, 151),
            rgb(171, 92, 69),
            rgb(121, 60, 49),
            rgb(231, 202, 157),
            rgb(202, 184, 150),
            rgb(128, 126, 115),
            rgb(84, 83, 78),
            rgb(54, 50, 48),
            rgb(211, 183, 98),
            rgb(157, 147, 91),
            rgb(245, 238, 211),
            rgb(35, 37, 37),
        ];
        let r = StylePack {
            id: "stanford_v1.ordinary.1",
            subpixels_per_pixel: 256,
            world_mm_per_half_step: 1_000,
            elevation_mm_per_pixel: 1_000,
            palette,
            ordinary: OrdinaryGrammar {
                terrain: [1, 0],
                canopy: [2, 3],
                athletic: [12, 13],
                building: [5, 7, 6],
                shadow: 10,
                outline: 11,
                shadow_x_mm: 12_000,
                shadow_y_mm: -4_000,
                tree_spacing_mm: 16_000,
                tree_radius_mm: 6_500,
                tree_height_mm: 12_000,
                terrain_dither_period: 16,
                athletic_dither_period: 8,
            },
        };
        proof {
            reveal_strlit("stanford_v1.ordinary.1");
            assert(r.ordinary.terrain@ =~= seq![1u8, 0u8]);
            assert(r.ordinary.canopy@ =~= seq![2u8, 3u8]);
            assert(r.ordinary.athletic@ =~= seq![12u8, 13u8]);
            assert(r.ordinary.building@ =~= seq![5u8, 7u8, 6u8]);
            assert(forall|k: int| 0 <= k < 11 ==> #[trigger] grammar_indexes(r.ordinary)[k] < 16);
        }
        r
    }

    /// Validate hard style invariants.
    pub fn validate(&self) -> (r: Result<(), StyleError>)
        ensures
            r == style_verdict(*self),
    {
        let n = self.palette.len();
        if n == 0 || n > 128 {
            return Err(StyleError::PaletteSize);
        }
        if self.subpixels_per_pixel <= 0 || self.world_mm_per_half_step <= 0 || self.elevation_mm_per_pixel <= 0 {
            return Err(StyleError::NonPositiveScale);
        }
        let g = &self.ordinary;
        let indexes: [u8; 11] = [
            g.terrain[0],
            g.terrain[1],
            g.canopy[0],
            g.canopy[1],
            g.athletic[0],
            g.athletic[1],
            g.building[0],
            g.building[1],
            g.building[2],
            g.shadow,
            g.outline,
        ];
        proof {
            assert(indexes@ =~= grammar_indexes(self.ordinary));
        }
        let mut k: usize = 0;
        while k < 11
            invariant
                k <= 11,
                indexes@ == grammar_indexes(self.ordinary),
                n == self.palette@.len(),
                1 <= n <= 128,
                self.subpixels_per_pixel > 0 && self.world_mm_per_half_step > 0 && self.elevation_mm_per_pixel > 0,
                forall|j: int| 0 <= j < k ==> #[trigger] grammar_indexes(self.ordinary)[j] < n,
            decreases 11 - k,
        {
            if indexes[k] as usize >= n {
                assert(grammar_indexes(self.ordinary)[k as int] >= n);
                return Err(StyleError::PaletteIndex);
            }
            k += 1;
        }
        if g.tree_spacing_mm <= 0 || g.tree_radius_mm <= 0 || g.tree_height_mm <= 0 || g.terrain_dither_period == 0
            || g.athletic_dither_period == 0 {
            return Err(StyleError::InvalidGrammar);
        }
        Ok(())
    }
}

/// A fail-closed validation error.
#[derive(Clone, Copy, Debug, Eq, PartialEq, Structural)]
pub enum ValidationError {
    /// A world contains no permanent objects.
    EmptyWorld,
    /// Stable object ordering is not strictly increasing.
    ObjectOrder,
    /// An unresolved object reached a qualification input.
    UnknownObject,
    /// The style pack violates a hard contract.
    InvalidStyle,
}

/// Validates style policy, including the hard palette ceiling.
pub fn validate_style(style: &StylePack) -> (r: Result<(), ValidationError>)
    ensures
        r is Ok <==> style.valid(),
        r is Err ==> r == Err::<(), ValidationError>(ValidationError::InvalidStyle),
{
    match style.validate() {
        Ok(()) => Ok(()),
        Err(_) => Err(ValidationError::InvalidStyle),
    }
}

} // verus!
