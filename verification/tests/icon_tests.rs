use std::io::Cursor;
use xuzzel::icon::{icon_format, raster_icon, IconFormat};

fn png_bytes(width: u32, height: u32, pixels: Vec<u8>) -> Vec<u8> {
    let image = image::RgbaImage::from_raw(width, height, pixels).unwrap();
    let mut out = Cursor::new(Vec::new());
    image.write_to(&mut out, image::ImageFormat::Png).unwrap();
    out.into_inner()
}

#[test]
fn icon_files_pick_their_decoder() {
    assert_eq!(icon_format("/usr/share/icons/hicolor/scalable/apps/firefox.svg"), IconFormat::Svg);
    assert_eq!(icon_format("/icons/app.SvG"), IconFormat::Svg);
    assert_eq!(icon_format("/icons/app.png"), IconFormat::Raster);
    assert_eq!(icon_format("/icons/app.svgz"), IconFormat::Raster);
    assert_eq!(icon_format("/icons/app"), IconFormat::Raster);
    assert_eq!(icon_format("/icons/.svg"), IconFormat::Raster);
}

#[test]
fn raster_icons_decode_to_rgba() {
    let pixels = vec![255, 0, 0, 255, 0, 255, 0, 128, 0, 0, 255, 0, 9, 9, 9, 9];
    let bytes = png_bytes(2, 2, pixels.clone());
    let icon = raster_icon(&bytes, 2).unwrap();
    assert_eq!((icon.width, icon.height), (2, 2));
    assert_eq!(icon.rgba, pixels);
    let scaled = raster_icon(&bytes, 4).unwrap();
    assert_eq!((scaled.width, scaled.height, scaled.rgba.len()), (4, 4, 64));
    assert!(raster_icon(b"not an image", 2).is_none());
}
