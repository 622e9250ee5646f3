use vstd::prelude::*;

use crate::model::Variant;

verus! {

/// Whether the model input is a centered square instead of the whole image:
/// always for variant P, otherwise only beyond a 2:1 aspect ratio.
pub open spec fn crops(variant: Variant, width: int, height: int) -> bool {
    height > 2 * width || width > 2 * height || variant == Variant::P
}

/// `(width, height, x, y)` of the region of the image that the model reads.
pub open spec fn crop_region(variant: Variant, width: int, height: int) -> (int, int, int, int) {
    if crops(variant, width, height) {
        let s = if height < width { height } else { width };
        let offset = ((if height > width { height } else { width }) - s) / 2;
        if height > width {
            (s, s, 0, offset)
        } else {
            (s, s, offset, 0)
        }
    } else {
        (width, height, 0, 0)
    }
}

/// Returns `(width, height, xpos, ypos)` of the region that is fed to the model.
///
/// Long and skinny or short and wide images (and every image for variant P) give
/// a square with the shorter side's length, centered along the longer side.
pub fn center_crop_size_and_offset(variant: Variant, width: u32, height: u32) -> (r: (
    u32,
    u32,
    u32,
    u32,
))
    ensures
        (r.0 as int, r.1 as int, r.2 as int, r.3 as int) == crop_region(
            variant,
            width as int,
            height as int,
        ),
        crops(variant, width as int, height as int) ==> {
            &&& r.0 == r.1
            &&& r.0 == (if width < height { width } else { height })
            &&& r.2 + r.0 <= width
            &&& r.3 + r.1 <= height
            &&& (r.2 == 0 || r.3 == 0)
        },
        !crops(variant, width as int, height as int) ==> r == (width, height, 0u32, 0u32),
{
    let w = width as u64;
    let h = height as u64;
    if h > w * 2 || w > h * 2 || variant == Variant::P {
        let m = if height < width { height } else { width };
        let big = if height > width { height } else { width };
        let offset = (big - m) / 2;
        if height > width {
            (m, m, 0, offset)
        } else {
            (m, m, offset, 0)
        }
    } else {
        (width, height, 0, 0)
    }
}

/// Whether the residual gets the mean-padding treatment against boundary
/// artifacts: variant P always, variant Q when the aspect ratio `width / height`
/// lies outside `[1/2, 2]`.
pub open spec fn mitigates(variant: Variant, width: int, height: int) -> bool {
    variant == Variant::P || (variant == Variant::Q && (2 * width < height || width > 2 * height))
}

/// Decides whether the boundary-artifact mitigation applies to a `width` by
/// `height` image.
pub fn needs_boundary_mitigation(variant: Variant, width: u32, height: u32) -> (r: bool)
    ensures
        r == mitigates(variant, width as int, height as int),
{
    let w = width as u64;
    let h = height as u64;
    match variant {
        Variant::P => true,
        Variant::Q => 2 * w < h || w > 2 * h,
        _ => false,
    }
}

} // verus!
