//! Reading the pixels of the images and GIFs that are converted: which decoder a file gets,
//! the delays of GIF frames, and what a conversion starts from.

use vstd::prelude::*;
use image::AnimationDecoder;
use crate::text::{ascii_lowercase, chars_of, seq_ascii_lowercase};
use crate::converter::{RgbaFrame, delay_ms};

verus! {

/// One decoded GIF frame: its RGBA pixels and its delay as a fraction of milliseconds.
pub struct GifFrame {
    pub width: u32,
    pub height: u32,
    pub pixels: Vec<u8>,
    pub numer: u32,
    pub denom: u32,
}

/// A decoded frame as plain values: width, height, RGBA bytes, delay numerator and denominator.
pub type GifFrameValue = (u32, u32, Seq<u8>, u32, u32);

impl GifFrame {
    /// The frame as plain values.
    pub open spec fn value(self) -> GifFrameValue {
        (self.width, self.height, self.pixels@, self.numer, self.denom)
    }
}

/// The frames that `image`'s GIF decoder reads from `data`, when it reads them.
pub uninterp spec fn gif_frames(data: Seq<u8>) -> Option<Seq<GifFrameValue>>;

/// The RGBA image that `image` decodes from `data` in the format named by the file
/// extension `ext`, when the extension names a format and the data decodes in it.
pub uninterp spec fn still_image(data: Seq<u8>, ext: Seq<char>) -> Option<(u32, u32, Seq<u8>)>;

/// Decodes all frames of a GIF with `image::codecs::gif::GifDecoder` and
/// `AnimationDecoder::into_frames().collect_frames()`, each frame as RGBA with its
/// `Delay::numer_denom_ms`.
///
/// Trusted: the result is named by `gif_frames`, a function of the bytes alone.
#[verifier::external_body]
fn decode_gif(data: &[u8]) -> (r: Option<Vec<GifFrame>>)
    ensures
        match r {
            Some(v) => gif_frames(data@) == Some(v@.map_values(|f: GifFrame| f.value())),
            None => gif_frames(data@) is None,
        },
{
    let decoder = image::codecs::gif::GifDecoder::new(std::io::Cursor::new(data)).ok()?;
    let mut out = Vec::new();
    for frame in decoder.into_frames().collect_frames().ok()? {
        let (numer, denom) = frame.delay().numer_denom_ms();
        let b = frame.into_buffer();
        out.push(GifFrame { width: b.width(), height: b.height(), pixels: b.into_raw(), numer, denom });
    }
    Some(out)
}

/// Decodes an image with `image::load_from_memory_with_format` in the format that
/// `ImageFormat::from_extension` gives for `ext`, as RGBA (`into_rgba8`).
///
/// Trusted: the result is named by `still_image`, a function of the bytes and the extension.
#[verifier::external_body]
fn decode_still(data: &[u8], ext: &str) -> (r: Option<RgbaFrame>)
    ensures
        match r {
            Some(f) => still_image(data@, ext@) == Some((f.width, f.height, f.pixels@)),
            None => still_image(data@, ext@) is None,
        },
{
    let format = image::ImageFormat::from_extension(ext)?;
    let img = image::load_from_memory_with_format(data, format).ok()?.into_rgba8();
    Some(RgbaFrame { width: img.width(), height: img.height(), pixels: img.into_raw() })
}

/// Whether `w` by `h` RGBA pixels take exactly `len` bytes.
pub open spec fn rgba_sized(w: u32, h: u32, len: int) -> bool {
    len == w * h * 4
}

/// Whether the extension names a GIF, in any letter case.
pub open spec fn is_gif_ext(ext: Seq<char>) -> bool {
    seq_ascii_lowercase(ext) == seq!['g', 'i', 'f']
}

/// Why an input file gives nothing to convert.
#[derive(Debug, Clone, Copy, PartialEq, Eq, Structural)]
pub enum LoadError {
    /// It is neither a GIF with frames nor an image in the format its extension names.
    NotAnImage,
}

/// What a file to convert holds: the frames of a GIF with their delays in milliseconds, or
/// one still image.
pub enum Decoded {
    Animation(Vec<(RgbaFrame, u64)>),
    Still(RgbaFrame),
}

/// A frame with its delay, as plain values.
pub type TimedFrame = (u32, u32, Seq<u8>, u64);

/// What a file to convert holds, as plain values.
pub enum DecodedValue {
    Animation(Seq<TimedFrame>),
    Still((u32, u32, Seq<u8>)),
}

impl Decoded {
    /// The content as plain values.
    pub open spec fn value(self) -> DecodedValue {
        match self {
            Decoded::Animation(v) => DecodedValue::Animation(
                v@.map_values(|p: (RgbaFrame, u64)| (p.0.width, p.0.height, p.0.pixels@, p.1)),
            ),
            Decoded::Still(f) => DecodedValue::Still((f.width, f.height, f.pixels@)),
        }
    }
}

/// Whether every decoded GIF frame has as many bytes as its size needs.
pub open spec fn frames_sized(frames: Seq<GifFrameValue>) -> bool {
    forall|i: int| 0 <= i < frames.len() ==> rgba_sized(#[trigger] frames[i].0, frames[i].1, frames[i].2.len() as int)
}

/// The GIF frames with their delays: each frame's delay in whole milliseconds, or, for a
/// frame whose denominator is 0, the first frame's delay (itself 100 ms when its own
/// denominator is 0).
pub open spec fn timed_frames(frames: Seq<GifFrameValue>) -> Seq<TimedFrame> {
    let first = frames[0];
    let default_delay: u64 = if first.4 > 0 { (first.3 / first.4) as u64 } else { 100 };
    frames.map_values(|f: GifFrameValue| (f.0, f.1, f.2, if f.4 > 0 { (f.3 / f.4) as u64 } else { default_delay }))
}

/// What a file with extension `ext` holding `data` gives to convert: a GIF (by its
/// extension) that decodes into at least one frame gives its frames; otherwise the image
/// decoded in the format its extension names; otherwise nothing. Buffers of the wrong
/// length count as not decoded.
pub open spec fn spec_decode_input(data: Seq<u8>, ext: Seq<char>) -> Result<DecodedValue, LoadError> {
    let gif = if is_gif_ext(ext) { gif_frames(data) } else { None };
    if gif matches Some(frames) && frames.len() > 0 && frames_sized(frames) {
        Ok(DecodedValue::Animation(timed_frames(gif.unwrap())))
    } else {
        match still_image(data, ext) {
            Some((w, h, px)) => if rgba_sized(w, h, px.len() as int) {
                Ok(DecodedValue::Still((w, h, px)))
            } else {
                Err(LoadError::NotAnImage)
            },
            None => Err(LoadError::NotAnImage),
        }
    }
}

fn is_gif_ext_exec(ext: &str) -> (r: bool)
    ensures
        r == is_gif_ext(ext@),
{
    let lower = ascii_lowercase(ext);
    let v = chars_of(lower.as_str());
    let r = v.len() == 3 && v[0] == 'g' && v[1] == 'i' && v[2] == 'f';
    assert(r ==> v@ =~= seq!['g', 'i', 'f']);
    r
}

fn rgba_sized_exec(w: u32, h: u32, len: usize) -> (r: bool)
    ensures
        r == rgba_sized(w, h, len as int),
{
    let a = w as u128;
    let b = h as u128;
    assert(a * b <= 0xffff_ffff * 0xffff_ffff) by (nonlinear_arith)
        requires a <= 0xffff_ffff, b <= 0xffff_ffff;
    a * b * 4 == len as u128
}

/// Reads the file to convert: the frames of a GIF, or a still image.
pub fn decode_input(data: &[u8], ext: &str) -> (r: Result<Decoded, LoadError>)
    ensures
        match r {
            Ok(d) => spec_decode_input(data@, ext@) == Ok::<DecodedValue, LoadError>(d.value())
                && (d matches Decoded::Animation(v) ==> forall|i: int| 0 <= i < v@.len() ==> (#[trigger] v@[i]).0.wf())
                && (d matches Decoded::Still(f) ==> f.wf()),
            Err(e) => spec_decode_input(data@, ext@) == Err::<DecodedValue, LoadError>(e),
        },
{
    if is_gif_ext_exec(ext) {
        if let Some(frames) = decode_gif(data) {
            let ghost fv = frames@.map_values(|f: GifFrame| f.value());
            let n = frames.len();
            let mut sized = true;
            let mut k: usize = 0;
            while k < n
                invariant
                    0 <= k <= n,
                    n == frames@.len(),
                    fv == frames@.map_values(|f: GifFrame| f.value()),
                    sized == (forall|i: int| 0 <= i < k ==> rgba_sized(#[trigger] fv[i].0, fv[i].1, fv[i].2.len() as int)),
                decreases n - k,
            {
                let ok = rgba_sized_exec(frames[k].width, frames[k].height, frames[k].pixels.len());
                proof {
                    assert(fv[k as int] == frames@[k as int].value());
                    if !ok {
                        assert(!rgba_sized(fv[k as int].0, fv[k as int].1, fv[k as int].2.len() as int));
                    }
                }
                sized = sized && ok;
                k += 1;
            }
            if n > 0 && sized {
                let default_delay = delay_ms(frames[0].numer, frames[0].denom, 100);
                assert(fv[0] == frames@[0].value());
                let ghost expect = timed_frames(fv);
                let mut out: Vec<(RgbaFrame, u64)> = Vec::new();
                let rest = frames;
                let mut i: usize = 0;
                while i < n
                    invariant
                        0 <= i <= n,
                        n == fv.len(),
                        expect == timed_frames(fv),
                        default_delay == (if fv[0].4 > 0 { (fv[0].3 / fv[0].4) as u64 } else { 100u64 }),
                        frames_sized(fv),
                        rest@.len() == n,
                        forall|j: int| i <= j < n ==> (#[trigger] rest@[j]).value() == fv[j],
                        out@.len() == i,
                        forall|j: int| 0 <= j < i ==> (#[trigger] out@[j]).0.wf()
                            && (out@[j].0.width, out@[j].0.height, out@[j].0.pixels@, out@[j].1) == expect[j],
                    decreases n - i,
                {
                    let f = &rest[i];
                    let d = delay_ms(f.numer, f.denom, default_delay);
                    let px = f.pixels.clone();
                    let frame = RgbaFrame { width: f.width, height: f.height, pixels: px };
                    proof {
                        assert(rest@[i as int].value() == fv[i as int]);
                        assert(rgba_sized(fv[i as int].0, fv[i as int].1, fv[i as int].2.len() as int));
                    }
                    out.push((frame, d));
                    i += 1;
                }
                proof {
                    let got = out@.map_values(|p: (RgbaFrame, u64)| (p.0.width, p.0.height, p.0.pixels@, p.1));
                    assert(got =~= expect);
                }
                return Ok(Decoded::Animation(out));
            }
        }
    }
    match decode_still(data, ext) {
        Some(f) => {
            if rgba_sized_exec(f.width, f.height, f.pixels.len()) {
                Ok(Decoded::Still(f))
            } else {
                Err(LoadError::NotAnImage)
            }
        },
        None => Err(LoadError::NotAnImage),
    }
}

/// The frames to preview, as a sequence: a GIF's frames, or the still image lasting 100 ms.
pub open spec fn preview_value(d: DecodedValue) -> Seq<TimedFrame> {
    match d {
        DecodedValue::Animation(v) => v,
        DecodedValue::Still((w, h, px)) => seq![(w, h, px, 100u64)],
    }
}

/// The frames of a file to preview, each with its delay in milliseconds: the frames of a
/// GIF, or the still image lasting 100 ms.
pub fn load_preview_frames(data: &[u8], ext: &str) -> (r: Result<Vec<(RgbaFrame, u64)>, LoadError>)
    ensures
        match r {
            Ok(v) => spec_decode_input(data@, ext@) matches Ok(d)
                && v@.map_values(|p: (RgbaFrame, u64)| (p.0.width, p.0.height, p.0.pixels@, p.1)) == preview_value(d)
                && forall|i: int| 0 <= i < v@.len() ==> (#[trigger] v@[i]).0.wf(),
            Err(e) => spec_decode_input(data@, ext@) == Err::<DecodedValue, LoadError>(e),
        },
{
    match decode_input(data, ext) {
        Ok(Decoded::Animation(v)) => Ok(v),
        Ok(Decoded::Still(f)) => {
            let mut v: Vec<(RgbaFrame, u64)> = Vec::new();
            v.push((f, 100));
            assert(v@.map_values(|p: (RgbaFrame, u64)| (p.0.width, p.0.height, p.0.pixels@, p.1)) =~= seq![(f.width, f.height, f.pixels@, 100u64)]);
            Ok(v)
        },
        Err(e) => Err(e),
    }
}

} // verus!
