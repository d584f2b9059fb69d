//! QR code overlays: the symbol comes from the `qrcode` crate and is drawn
//! into an artwork bitmap with a quiet zone around it.
use vstd::prelude::*;
use vstd::string::StringSliceAdditionalSpecFns;

use crate::artwork::ArtworkBitmap;

verus! {

/// QR error correction level.
#[derive(Debug, Clone, Copy, PartialEq, Eq, Structural)]
pub enum EcLevel {
    L,
    M,
    Q,
    H,
}

/// Why the `qrcode` crate could not encode the data.
#[derive(Debug, Clone, Copy, PartialEq, Eq, Structural)]
pub enum QrEncodeError {
    DataTooLong,
    InvalidVersion,
    UnsupportedCharacterSet,
    InvalidEciDesignator,
    InvalidCharacter,
}

/// Why a QR code could not be rendered.
#[derive(Debug, Clone, Copy, PartialEq, Eq, Structural)]
pub enum QrRenderError {
    /// The data is empty.
    EmptyData,
    /// The module size is 0.
    ZeroModuleSize,
    /// The data cannot be encoded.
    Encode(QrEncodeError),
    /// The rendered bitmap would be too large for a bitmap.
    TooLarge,
}

/// The QR symbol that `QrCode::with_error_correction_level` builds for
/// `data` at `level`: its width in modules and its modules row by row
/// (`true` = dark); `None` when the data cannot be encoded.
pub uninterp spec fn qr_symbol(data: Seq<u8>, level: EcLevel) -> Option<(int, Seq<bool>)>;

/// `qrcode::QrCode::with_error_correction_level(data, level)`, read out as
/// `width()` and `to_colors()` (dark modules as `true`). The contract names
/// the result `qr_symbol(data, level)` and states what the crate's source
/// shows of it: it picks a normal QR version, so the width is between 21
/// and 177, and it holds `width * width` modules. Which encoding error
/// comes out is not stated.
#[verifier::external_body]
fn encode_qr(data: &[u8], level: EcLevel) -> (r: Result<(usize, Vec<bool>), QrEncodeError>)
    ensures
        match r {
            Ok((w, modules)) => {
                &&& qr_symbol(data@, level) == Some((w as int, modules@))
                &&& 21 <= w <= 177
                &&& modules@.len() == w * w
            },
            Err(_) => qr_symbol(data@, level) is None,
        },
{
    let ec = match level {
        EcLevel::L => qrcode::EcLevel::L,
        EcLevel::M => qrcode::EcLevel::M,
        EcLevel::Q => qrcode::EcLevel::Q,
        EcLevel::H => qrcode::EcLevel::H,
    };
    match qrcode::QrCode::with_error_correction_level(data, ec) {
        Ok(code) => Ok((code.width(), code.to_colors().iter().map(|c| *c == qrcode::Color::Dark).collect())),
        Err(qrcode::types::QrError::DataTooLong) => Err(QrEncodeError::DataTooLong),
        Err(qrcode::types::QrError::InvalidVersion) => Err(QrEncodeError::InvalidVersion),
        Err(qrcode::types::QrError::UnsupportedCharacterSet) => Err(QrEncodeError::UnsupportedCharacterSet),
        Err(qrcode::types::QrError::InvalidEciDesignator) => Err(QrEncodeError::InvalidEciDesignator),
        Err(qrcode::types::QrError::InvalidCharacter) => Err(QrEncodeError::InvalidCharacter),
    }
}

/// Side in pixels of a rendered symbol of `width` modules.
pub open spec fn qr_side(width: int, module_size: int, quiet_zone: int) -> int {
    (width + 2 * quiet_zone) * module_size
}

/// Whether pixel `(x, y)` of the rendered symbol is set: it lies in a dark
/// module, each module being a `module_size` square, after `quiet_zone`
/// light modules on every side.
pub open spec fn qr_pixel(width: int, modules: Seq<bool>, module_size: int, quiet_zone: int, x: int, y: int) -> bool {
    let mx = x / module_size - quiet_zone;
    let my = y / module_size - quiet_zone;
    &&& 0 <= mx < width
    &&& 0 <= my < width
    &&& modules[my * width + mx]
}

/// Module placement: in a rendered symbol, module `(mx, my)` (column `mx`,
/// row `my`, stored at `my * width + mx`) is the `module_size` square whose
/// top-left pixel is column `(mx + quiet_zone) * module_size`, row
/// `(my + quiet_zone) * module_size`; every pixel of that square shows it.
pub proof fn law_qr_module_placement(
    width: int,
    modules: Seq<bool>,
    module_size: int,
    quiet_zone: int,
    r: ArtworkBitmap,
    mx: int,
    my: int,
    sx: int,
    sy: int,
)
    requires
        width >= 0,
        quiet_zone >= 0,
        module_size > 0,
        r.width == qr_side(width, module_size, quiet_zone),
        r.height == r.width,
        r@ == Seq::new(
            (r.width * r.height) as nat,
            |k: int| qr_pixel(width, modules, module_size, quiet_zone, k % (r.width as int), k / (r.width as int)),
        ),
        0 <= mx < width,
        0 <= my < width,
        0 <= sx < module_size,
        0 <= sy < module_size,
    ensures
        r.pixel((mx + quiet_zone) * module_size + sx, (my + quiet_zone) * module_size + sy) == modules[my * width + mx],
{
    let w = r.width as int;
    let x = (mx + quiet_zone) * module_size + sx;
    let y = (my + quiet_zone) * module_size + sy;
    assert(x / module_size == mx + quiet_zone && y / module_size == my + quiet_zone) by (nonlinear_arith)
        requires
            x == (mx + quiet_zone) * module_size + sx,
            y == (my + quiet_zone) * module_size + sy,
            0 <= sx < module_size,
            0 <= sy < module_size,
    ;
    assert(0 <= x < w && 0 <= y < w) by (nonlinear_arith)
        requires
            x == (mx + quiet_zone) * module_size + sx,
            y == (my + quiet_zone) * module_size + sy,
            0 <= sx < module_size,
            0 <= sy < module_size,
            0 <= mx < width,
            0 <= my < width,
            quiet_zone >= 0,
            w == (width + 2 * quiet_zone) * module_size,
    ;
    let k = y * w + x;
    assert(0 <= k < w * w && k % w == x && k / w == y) by (nonlinear_arith)
        requires
            k == y * w + x,
            0 <= x < w,
            0 <= y < w,
    ;
}

/// Draw a QR symbol of `width x width` modules into a new bitmap.
pub fn render_qr_modules(width: u32, modules: &[bool], module_size: u32, quiet_zone: u32) -> (r: ArtworkBitmap)
    requires
        modules@.len() == width * width,
        module_size > 0,
        qr_side(width as int, module_size as int, quiet_zone as int) * qr_side(
            width as int,
            module_size as int,
            quiet_zone as int,
        ) <= u32::MAX,
    ensures
        r.wf(),
        r.width == qr_side(width as int, module_size as int, quiet_zone as int),
        r.height == r.width,
        r@ == Seq::new(
            (r.width * r.height) as nat,
            |k: int|
                qr_pixel(
                    width as int,
                    modules@,
                    module_size as int,
                    quiet_zone as int,
                    k % (r.width as int),
                    k / (r.width as int),
                ),
        ),
        forall|mx: int, my: int, sx: int, sy: int|
            0 <= mx < width && 0 <= my < width && 0 <= sx < module_size && 0 <= sy < module_size ==> #[trigger] r.pixel(
                (mx + quiet_zone) * module_size + sx,
                (my + quiet_zone) * module_size + sy,
            ) == modules@[my * width + mx],
{
    let ghost side = qr_side(width as int, module_size as int, quiet_zone as int);
    assert(side >= 0) by (nonlinear_arith)
        requires
            side == (width + 2 * quiet_zone) * module_size,
            module_size > 0,
    ;
    assert(side <= u32::MAX) by (nonlinear_arith)
        requires
            side * side <= u32::MAX,
            side >= 0,
    ;
    assert((width as int) + 2 * (quiet_zone as int) <= side) by (nonlinear_arith)
        requires
            side == (width + 2 * quiet_zone) * module_size,
            module_size >= 1,
            width >= 0,
            quiet_zone >= 0,
    ;
    let n = (width as u64 + 2 * quiet_zone as u64) * (module_size as u64);
    let s32 = n as u32;
    let total: u32 = s32 * s32;
    let mut bools: Vec<bool> = Vec::new();
    let mut k: u32 = 0;
    let mlen = modules.len();
    while k < total
        invariant
            mlen == modules@.len(),
            k <= total,
            total == s32 * s32,
            s32 == side,
            module_size > 0,
            modules@.len() == width * width,
            bools@ == Seq::new(
                k as nat,
                |j: int|
                    qr_pixel(width as int, modules@, module_size as int, quiet_zone as int, j % (s32 as int), j / (s32 as int)),
            ),
        decreases total - k,
    {
        let x = k % s32;
        let y = k / s32;
        let mx = (x / module_size) as i64 - quiet_zone as i64;
        let my = (y / module_size) as i64 - quiet_zone as i64;
        let p = if 0 <= mx && mx < width as i64 && 0 <= my && my < width as i64 {
            proof {
                assert(0 <= my * width + mx < width * width && my * width <= my * width + mx) by (nonlinear_arith)
                    requires
                        0 <= mx < width,
                        0 <= my < width,
                ;
            }
            modules[(my as usize) * (width as usize) + (mx as usize)]
        } else {
            false
        };
        bools.push(p);
        k = k + 1;
        proof {
            assert(bools@ =~= Seq::new(
                k as nat,
                |j: int|
                    qr_pixel(width as int, modules@, module_size as int, quiet_zone as int, j % (s32 as int), j / (s32 as int)),
            ));
        }
    }
    let r = ArtworkBitmap::from_bools(s32, s32, bools.as_slice());
    proof {
        assert forall|mx: int, my: int, sx: int, sy: int|
            0 <= mx < width && 0 <= my < width && 0 <= sx < module_size && 0 <= sy < module_size implies #[trigger] r.pixel(
                (mx + quiet_zone) * module_size + sx,
                (my + quiet_zone) * module_size + sy,
            ) == modules@[my * width + mx] by {
            law_qr_module_placement(width as int, modules@, module_size as int, quiet_zone as int, r, mx, my, sx, sy);
        }
    }
    r
}

/// Render `data` as a QR code at `ec_level`: modules of `module_size`
/// pixels, `quiet_zone` light modules around the symbol.
pub fn render_qr(data: &str, module_size: u32, ec_level: EcLevel, quiet_zone: u32) -> (r: Result<
    ArtworkBitmap,
    QrRenderError,
>)
    ensures
        data@.len() == 0 ==> r == Err::<ArtworkBitmap, QrRenderError>(QrRenderError::EmptyData),
        data@.len() > 0 && module_size == 0 ==> r == Err::<ArtworkBitmap, QrRenderError>(
            QrRenderError::ZeroModuleSize,
        ),
        data@.len() > 0 && module_size > 0 ==> match qr_symbol(data.spec_bytes(), ec_level) {
            None => r matches Err(QrRenderError::Encode(_)),
            Some((w, modules)) => {
                let side = qr_side(w, module_size as int, quiet_zone as int);
                if side * side <= u32::MAX {
                    r matches Ok(bm) && bm.wf() && bm.width == side && bm.height == side && bm@ == Seq::new(
                        (side * side) as nat,
                        |k: int| qr_pixel(w, modules, module_size as int, quiet_zone as int, k % side, k / side),
                    ) && forall|mx: int, my: int, sx: int, sy: int|
                        0 <= mx < w && 0 <= my < w && 0 <= sx < module_size && 0 <= sy < module_size
                            ==> #[trigger] bm.pixel(
                            (mx + quiet_zone) * module_size + sx,
                            (my + quiet_zone) * module_size + sy,
                        ) == modules[my * w + mx]
                } else {
                    r == Err::<ArtworkBitmap, QrRenderError>(QrRenderError::TooLarge)
                }
            },
        },
{
    if data.is_empty() {
        return Err(QrRenderError::EmptyData);
    }
    if module_size == 0 {
        return Err(QrRenderError::ZeroModuleSize);
    }
    let bytes = data.as_bytes();
    match encode_qr(bytes, ec_level) {
        Err(e) => Err(QrRenderError::Encode(e)),
        Ok((w, modules)) => {
            let span: u128 = w as u128 + 2 * quiet_zone as u128;
            assert(span * module_size <= 0x3_0000_0000 * 0x1_0000_0000) by (nonlinear_arith)
                requires
                    span <= 0x3_0000_0000,
                    module_size <= 0x1_0000_0000,
            ;
            let side: u128 = span * (module_size as u128);
            assert(side == qr_side(w as int, module_size as int, quiet_zone as int));
            if side > u32::MAX as u128 {
                assert(side * side > u32::MAX) by (nonlinear_arith)
                    requires
                        side > u32::MAX,
                ;
                return Err(QrRenderError::TooLarge);
            }
            assert(side * side <= 0x1_0000_0000 * 0x1_0000_0000) by (nonlinear_arith)
                requires
                    side <= 0x1_0000_0000,
            ;
            if side * side <= u32::MAX as u128 {
                Ok(render_qr_modules(w as u32, modules.as_slice(), module_size, quiet_zone))
            } else {
                Err(QrRenderError::TooLarge)
            }
        },
    }
}

}
