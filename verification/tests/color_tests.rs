use fabbula::color::{channel_index, extract_channel_layers, ColorError};

fn rgba_from_fn(w: u32, h: u32, f: impl Fn(u32, u32) -> [u8; 3]) -> Vec<u8> {
    let mut v = Vec::new();
    for y in 0..h {
        for x in 0..w {
            let [r, g, b] = f(x, y);
            v.extend_from_slice(&[r, g, b, 255]);
        }
    }
    v
}

#[test]
fn test_extract_channels_rgb() {
    let colors = vec![Some("red".to_string()), Some("green".to_string()), Some("blue".to_string())];
    let rgba = rgba_from_fn(4, 4, |x, y| {
        let r = if x < 2 { 255u8 } else { 0 };
        let g = if y < 2 { 255u8 } else { 0 };
        let b = if (x + y) % 2 == 0 { 255u8 } else { 0 };
        [r, g, b]
    });
    let results = extract_channel_layers(4, 4, &rgba, &colors, 128).unwrap();
    assert_eq!(results.len(), 3, "Expected 3 LayerBitmaps for R/G/B profiles");
    let indices: Vec<usize> = results.iter().map(|lb| lb.layer_index).collect();
    assert!(indices.contains(&0), "Should contain layer_index 0 (red)");
    assert!(indices.contains(&1), "Should contain layer_index 1 (green)");
    assert!(indices.contains(&2), "Should contain layer_index 2 (blue)");
    assert!(results[0].bitmap.get(1, 3) && !results[0].bitmap.get(2, 0));
    assert!(results[1].bitmap.get(3, 1) && !results[1].bitmap.get(0, 2));
    assert!(results[2].bitmap.get(1, 1) && !results[2].bitmap.get(1, 2));
}

#[test]
fn test_extract_channels_no_color_field() {
    let colors: Vec<Option<String>> = vec![None, None];
    let rgba = vec![0u8; 2 * 2 * 4];
    let result = extract_channel_layers(2, 2, &rgba, &colors, 128);
    assert!(result.is_err(), "extract_channels should fail when no profiles have a color field");
    assert_eq!(result.err(), Some(ColorError::NoChannelLayers));
}

#[test]
fn channel_names() {
    assert_eq!(channel_index("red"), Some(0));
    assert_eq!(channel_index("R"), Some(0));
    assert_eq!(channel_index("Green"), Some(1));
    assert_eq!(channel_index("b"), Some(2));
    assert_eq!(channel_index("cyan"), None);
    assert_eq!(channel_index(""), None);
}

#[test]
fn unknown_colors_are_skipped() {
    let colors = vec![Some("cyan".to_string()), None, Some("BLUE".to_string())];
    let rgba = vec![0u8, 0, 200, 255, 0, 0, 10, 255];
    let out = extract_channel_layers(2, 1, &rgba, &colors, 128).unwrap();
    assert_eq!(out.len(), 1);
    assert_eq!(out[0].layer_index, 2);
    assert!(out[0].bitmap.get(0, 0));
    assert!(!out[0].bitmap.get(1, 0));
}
