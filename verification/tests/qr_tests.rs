use fabbula::qr::{render_qr, render_qr_modules, EcLevel, QrRenderError};

#[test]
fn test_render_qr_basic() {
    let bmp = render_qr("hello", 2, EcLevel::M, 4).unwrap();
    assert_eq!(bmp.width, bmp.height);
    assert!(bmp.metal_count() > 0);
}

#[test]
fn test_render_qr_module_size_scales() {
    let a = render_qr("hello", 1, EcLevel::M, 4).unwrap();
    let b = render_qr("hello", 3, EcLevel::M, 4).unwrap();
    assert_eq!(b.width, a.width * 3);
}

#[test]
fn test_render_qr_quiet_zone_changes_size() {
    let a = render_qr("hello", 2, EcLevel::M, 0).unwrap();
    let b = render_qr("hello", 2, EcLevel::M, 4).unwrap();
    assert!(b.width > a.width);
}

#[test]
fn qr_version_one_has_21_modules() {
    let a = render_qr("hello", 1, EcLevel::L, 0).unwrap();
    assert_eq!(a.width, 21);
    // Finder pattern: the top-left module is dark, the quiet zone is light.
    assert!(a.get(0, 0));
    let b = render_qr("hello", 2, EcLevel::L, 1).unwrap();
    assert_eq!(b.width, (21 + 2) * 2);
    assert!(!b.get(1, 1));
    assert!(b.get(2, 2));
    assert!(b.get(3, 3));
}

#[test]
fn qr_errors() {
    assert_eq!(render_qr("", 2, EcLevel::M, 4).err(), Some(QrRenderError::EmptyData));
    assert_eq!(render_qr("x", 0, EcLevel::M, 4).err(), Some(QrRenderError::ZeroModuleSize));
    let long = "x".repeat(8000);
    assert!(matches!(render_qr(&long, 1, EcLevel::H, 0), Err(QrRenderError::Encode(_))));
    assert_eq!(render_qr("x", 4000, EcLevel::M, 0).err(), Some(QrRenderError::TooLarge));
}

#[test]
fn render_modules_scales_and_pads() {
    let modules = [true, false, false, true];
    let bmp = render_qr_modules(2, &modules, 2, 1);
    assert_eq!(bmp.width, 8);
    for y in 0..8u32 {
        for x in 0..8u32 {
            let (mx, my) = (x as i32 / 2 - 1, y as i32 / 2 - 1);
            let expected = (0..2).contains(&mx) && (0..2).contains(&my) && modules[(my * 2 + mx) as usize];
            assert_eq!(bmp.get(x, y), expected);
        }
    }
}
