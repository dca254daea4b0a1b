use askey::decode::{decode_input, load_preview_frames, Decoded, LoadError};
use image::codecs::gif::GifEncoder;
use image::{Delay, Frame, ImageFormat, RgbaImage};
use std::io::Cursor;

fn png_bytes(w: u32, h: u32, px: [u8; 4]) -> Vec<u8> {
    let img = RgbaImage::from_fn(w, h, |_, _| image::Rgba(px));
    let mut out = Cursor::new(Vec::new());
    img.write_to(&mut out, ImageFormat::Png).unwrap();
    out.into_inner()
}

fn gif_bytes(frames: &[([u8; 4], u32)]) -> Vec<u8> {
    let mut out = Vec::new();
    {
        let mut enc = GifEncoder::new(&mut out);
        let fs: Vec<Frame> = frames
            .iter()
            .map(|(px, ms)| {
                let img = RgbaImage::from_fn(2, 1, |_, _| image::Rgba(*px));
                Frame::from_parts(img, 0, 0, Delay::from_numer_denom_ms(*ms, 1))
            })
            .collect();
        enc.encode_frames(fs).unwrap();
    }
    out
}

#[test]
fn png_decodes_as_a_still_image() {
    let data = png_bytes(3, 2, [1, 2, 3, 255]);
    match decode_input(&data, "PNG") {
        Ok(Decoded::Still(f)) => {
            assert_eq!((f.width, f.height), (3, 2));
            assert_eq!(f.pixels.len(), 24);
            assert_eq!(&f.pixels[0..4], &[1, 2, 3, 255]);
        }
        _ => panic!("expected a still image"),
    }
}

#[test]
fn extension_decides_the_decoder() {
    let data = png_bytes(1, 1, [0, 0, 0, 255]);
    assert_eq!(decode_input(&data, "txt").err(), Some(LoadError::NotAnImage));
    assert_eq!(decode_input(&data, "").err(), Some(LoadError::NotAnImage));
    assert_eq!(decode_input(&data, "jpg").err(), Some(LoadError::NotAnImage));
    assert_eq!(decode_input(&data, "gif").err(), Some(LoadError::NotAnImage));
    assert_eq!(decode_input(&[1, 2, 3], "png").err(), Some(LoadError::NotAnImage));
}

#[test]
fn gif_decodes_into_timed_frames() {
    let data = gif_bytes(&[([255, 0, 0, 255], 50), ([0, 0, 255, 255], 120)]);
    match decode_input(&data, "GIF") {
        Ok(Decoded::Animation(v)) => {
            assert_eq!(v.len(), 2);
            assert_eq!((v[0].0.width, v[0].0.height), (2, 1));
            assert_eq!(v[0].1, 50);
            assert_eq!(v[1].1, 120);
            assert_eq!(&v[0].0.pixels[0..4], &[255, 0, 0, 255]);
            assert_eq!(&v[1].0.pixels[0..4], &[0, 0, 255, 255]);
        }
        _ => panic!("expected an animation"),
    }
}

#[test]
fn preview_of_a_still_image_lasts_100_ms() {
    let data = png_bytes(2, 2, [9, 9, 9, 255]);
    let v = load_preview_frames(&data, "png").unwrap();
    assert_eq!(v.len(), 1);
    assert_eq!(v[0].1, 100);
    assert_eq!((v[0].0.width, v[0].0.height), (2, 2));
}

#[test]
fn preview_of_a_gif_keeps_its_delays() {
    let data = gif_bytes(&[([0, 255, 0, 255], 30)]);
    let v = load_preview_frames(&data, "gif").unwrap();
    assert_eq!(v.len(), 1);
    assert_eq!(v[0].1, 30);
    assert!(load_preview_frames(&[0u8; 4], "gif").is_err());
}
