use vstd::prelude::*;

use crate::geometry::trunc_div;

verus! {

/// The fixed 13-step grayscale palette: shade `0` is black, shade `12` is
/// white, and any level outside `0..=12` falls back to black.
pub open spec fn palette(level: int) -> u32 {
    if level == 0 {
        0x000000u32
    } else if level == 1 {
        0x151515u32
    } else if level == 2 {
        0x2a2a2au32
    } else if level == 3 {
        0x3f3f3fu32
    } else if level == 4 {
        0x555555u32
    } else if level == 5 {
        0x6a6a6au32
    } else if level == 6 {
        0x7f7f7fu32
    } else if level == 7 {
        0x949494u32
    } else if level == 8 {
        0xaaaaaau32
    } else if level == 9 {
        0xbfbfbfu32
    } else if level == 10 {
        0xd4d4d4u32
    } else if level == 11 {
        0xe9e9e9u32
    } else if level == 12 {
        0xffffffu32
    } else {
        0x000000u32
    }
}

/// The palette step of a light intensity given as the exact fraction
/// `lum_num / lum_den`: thirteen times the intensity, truncated toward
/// zero, exactly as an integer cast of the scaled intensity truncates.
pub open spec fn lum_level(lum_num: int, lum_den: int) -> int {
    trunc_div(13 * lum_num, lum_den)
}

/// Maps a light intensity (an exact fraction with positive denominator)
/// onto the grayscale palette: level `floor-toward-zero(13 * intensity)`,
/// out-of-range levels falling back to black.
pub fn get_color(lum_num: i64, lum_den: i64) -> (c: u32)
    requires
        0 < lum_den <= 0x10_0000_0000,
        -0x10_0000_0000 <= lum_num <= 0x10_0000_0000,
    ensures
        c == palette(lum_level(lum_num as int, lum_den as int)),
{
    let scaled = 13 * lum_num;
    proof {
        let m: int = 0xD0_0000_0000;
        assert(-m * lum_den <= scaled <= m * lum_den) by (nonlinear_arith)
            requires
                1 <= lum_den,
                -m <= scaled <= m,
        ;
        crate::geometry::lemma_trunc_div_in_box(scaled as int, lum_den as int, m);
    }
    let level = scaled.checked_div(lum_den).unwrap();
    match level {
        0 => 0x000000,
        1 => 0x151515,
        2 => 0x2a2a2a,
        3 => 0x3f3f3f,
        4 => 0x555555,
        5 => 0x6a6a6a,
        6 => 0x7f7f7f,
        7 => 0x949494,
        8 => 0xaaaaaa,
        9 => 0xbfbfbf,
        10 => 0xd4d4d4,
        11 => 0xe9e9e9,
        12 => 0xffffff,
        _ => 0x000000,
    }
}

} // verus!
