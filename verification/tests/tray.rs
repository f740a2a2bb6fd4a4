use indigo::tray::decode_icon;

fn png(width: u32, height: u32, color: png::ColorType, data: &[u8]) -> Vec<u8> {
    let mut out = Vec::new();
    {
        let mut enc = png::Encoder::new(&mut out, width, height);
        enc.set_color(color);
        enc.set_depth(png::BitDepth::Eight);
        let mut w = enc.write_header().unwrap();
        w.write_image_data(data).unwrap();
    }
    out
}

#[test]
fn rgba_icon_becomes_argb() {
    let bytes = png(2, 1, png::ColorType::Rgba, &[1, 2, 3, 4, 10, 20, 30, 40]);
    let icon = decode_icon(&bytes).unwrap();
    assert_eq!(icon.width, 2);
    assert_eq!(icon.height, 1);
    assert_eq!(icon.data, vec![4, 1, 2, 3, 40, 10, 20, 30]);
}

#[test]
fn rgb_icon_is_refused() {
    let bytes = png(1, 1, png::ColorType::Rgb, &[1, 2, 3]);
    assert!(decode_icon(&bytes).is_none());
}

#[test]
fn garbage_is_refused() {
    assert!(decode_icon(b"not a png").is_none());
    assert!(decode_icon(&[]).is_none());
}
