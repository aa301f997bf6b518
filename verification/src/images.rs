//! Pictures: decoded by `image`, embedded as text by `base64`, and packed or
//! averaged here.

use vstd::prelude::*;
use base64::Engine;
use image::ImageDecoder;

verus! {

/// A picture: four bytes for each pixel, row by row from the top.
#[derive(Debug)]
pub struct Pixels {
    pub width: u32,
    pub height: u32,
    pub rgba: Vec<u8>,
}

/// What a picture holds.
pub struct PixelsView {
    pub width: u32,
    pub height: u32,
    pub rgba: Seq<u8>,
}

impl View for Pixels {
    type V = PixelsView;

    open spec fn view(&self) -> PixelsView {
        PixelsView { width: self.width, height: self.height, rgba: self.rgba@ }
    }
}

impl Pixels {
    /// There are four bytes for each pixel.
    pub open spec fn wf(&self) -> bool {
        self.rgba@.len() == 4 * self.width * self.height
    }
}

/// The outcome of decoding, by what it holds.
pub open spec fn decoding_view(r: Result<Pixels, String>) -> Result<PixelsView, Seq<char>> {
    match r {
        Ok(p) => Ok(p@),
        Err(e) => Err(e@),
    }
}

/// What `image::load_from_memory` and `to_rgba8` make of the bytes of a file.
pub uninterp spec fn decoded_image(bytes: Seq<u8>) -> Result<PixelsView, Seq<char>>;

/// The file is decoded to this picture.
pub open spec fn decodes_to(bytes: Seq<u8>, width: u32, height: u32, rgba: Seq<u8>) -> bool {
    decoded_image(bytes) matches Ok(p) && p.width == width && p.height == height && p.rgba == rgba
}

/// `image::load_from_memory`, then `DynamicImage::to_rgba8`: decodes a PNG or
/// JPEG file. The outcome depends on the bytes alone and is named by
/// [`decoded_image`]; the formats are not written out here. A picture has
/// four bytes for each pixel.
#[verifier::external_body]
pub(crate) fn decode_rgba(bytes: &[u8]) -> (r: Result<Pixels, String>)
    ensures
        decoding_view(r) == decoded_image(bytes@),
        r matches Ok(p) ==> p.wf(),
{
    match image::load_from_memory(bytes) {
        Ok(decoded) => {
            let rgba = decoded.to_rgba8();
            Ok(Pixels { width: rgba.width(), height: rgba.height(), rgba: rgba.into_raw() })
        },
        Err(e) => Err(e.to_string()),
    }
}

/// What `ImageReader::into_dimensions` reads from the bytes of a file.
pub uninterp spec fn image_dimensions(bytes: Seq<u8>) -> Option<(u32, u32)>;

/// `image::ImageReader::into_dimensions`, with the format guessed from the
/// bytes: the width and height that the header of a file says. It depends on
/// the bytes alone and is named by [`image_dimensions`].
#[verifier::external_body]
pub(crate) fn read_dimensions(bytes: &[u8]) -> (r: Option<(u32, u32)>)
    ensures
        r == image_dimensions(bytes@),
{
    match image::ImageReader::new(std::io::Cursor::new(bytes)).with_guessed_format() {
        Ok(reader) => reader.into_dimensions().ok(),
        Err(_) => None,
    }
}

/// How `ImageDecoder::color_type` says that the pixels of a file are decoded:
/// the bytes of a pixel, and its channels.
pub uninterp spec fn image_layout(bytes: Seq<u8>) -> Option<(u8, u8)>;

/// `image::ImageReader::into_decoder`, with the format guessed from the bytes,
/// then `ImageDecoder::color_type`: the bytes and the channels of a pixel, as
/// the file is decoded. It depends on the bytes alone and is named by
/// [`image_layout`].
#[verifier::external_body]
pub(crate) fn read_layout(bytes: &[u8]) -> (r: Option<(u8, u8)>)
    ensures
        r == image_layout(bytes@),
{
    let cursor = std::io::Cursor::new(bytes);
    let reader = image::ImageReader::new(cursor).with_guessed_format().ok()?;
    let color = reader.into_decoder().ok()?.color_type();
    Some((color.bytes_per_pixel(), color.channel_count()))
}

/// The widest and highest picture that another is scaled down to.
pub const MOST_SMALL: u32 = 1024;

/// The widest picture whose columns single-precision numbers count exactly.
pub const EXACT_SIDE: u32 = 0x100_0000;

/// The largest value of a channel, where a pixel of so many channels has so
/// many bytes; nothing where a channel is no integer of one or two bytes.
pub open spec fn largest_sample(bytes: u8, channels: u8) -> Option<nat> {
    if bytes == channels {
        Some(255)
    } else if bytes == 2 * channels {
        Some(65535)
    } else {
        None
    }
}

/// A picture of `w` by `h` pixels that is scaled to fit `width` by `height`
/// is at least so wide.
pub open spec fn least_side(w: u32, h: u32, width: u32, height: u32) -> nat {
    let scaled = w as nat * height as nat / h as nat;
    if scaled >= width {
        width as nat
    } else if scaled == 0 {
        1
    } else {
        scaled
    }
}

/// A pixel of a picture of `w` by `h` pixels that is scaled to fit `width` by
/// `height` is the average of at most so many columns. They are counted in
/// single precision, which is exact only where they divide evenly.
pub open spec fn block_side(w: u32, h: u32, width: u32, height: u32) -> nat {
    let low = least_side(w, h, width, height);
    let columns = w as nat / low;
    if w as nat % low == 0 && w <= EXACT_SIDE {
        columns
    } else {
        columns + columns / 1024 + 3
    }
}

/// Scaling the file to fit keeps the sums that it averages within 32 bits.
pub open spec fn sums_fit(bytes: Seq<u8>, width: u32, height: u32) -> bool {
    match (image_dimensions(bytes), image_layout(bytes)) {
        (Some((w, h)), Some((size, channels))) => match largest_sample(size, channels) {
            Some(most) => {
                let block = block_side(w, h, width, height) * block_side(h, w, height, width);
                w > 0 && h > 0 && block * most + block / 2 <= u32::MAX
            },
            None => false,
        },
        _ => false,
    }
}

/// What `DynamicImage::thumbnail` makes of a file that can be decoded.
pub uninterp spec fn thumbnail_image(bytes: Seq<u8>, width: u32, height: u32) -> Option<PixelsView>;

/// `image::load_from_memory`, then `DynamicImage::thumbnail` and `to_rgba8`:
/// decodes a file and scales it to fit the bounds, keeping its proportions.
/// The outcome depends on the arguments alone and is named by
/// [`thumbnail_image`]. A picture fits the bounds, and has four bytes for each
/// pixel. `thumbnail` adds up the channels of a block of pixels in 32 bits, and
/// half the number of its pixels to round; [`sums_fit`] leaves out what would
/// overflow.
#[verifier::external_body]
pub(crate) fn thumbnail_rgba(bytes: &[u8], width: u32, height: u32) -> (r: Option<Pixels>)
    requires
        0 < width <= MOST_SMALL,
        0 < height <= MOST_SMALL,
        sums_fit(bytes@, width, height),
    ensures
        (match r {
            Some(p) => Some(p@),
            None => None,
        }) == thumbnail_image(bytes@, width, height),
        r matches Some(p) ==> p.wf() && p.width <= width && p.height <= height,
{
    match image::load_from_memory(bytes) {
        Ok(decoded) => {
            let rgba = decoded.thumbnail(width, height).to_rgba8();
            Some(Pixels { width: rgba.width(), height: rgba.height(), rgba: rgba.into_raw() })
        },
        Err(_) => None,
    }
}

fn count_block(w: u32, h: u32, width: u32, height: u32) -> (r: u128)
    requires
        w > 0,
        h > 0,
        width > 0,
    ensures
        r == block_side(w, h, width, height),
        r <= 0x2_0000_0000,
{
    assert(w * height <= u64::MAX) by (nonlinear_arith)
        requires
            w <= u32::MAX,
            height <= u32::MAX,
    ;
    let product: u64 = w as u64 * height as u64;
    let scaled: u64 = product / h as u64;
    let low: u64 = if scaled >= width as u64 {
        width as u64
    } else if scaled == 0 {
        1
    } else {
        scaled
    };
    let columns: u64 = w as u64 / low;
    assert(columns <= w) by (nonlinear_arith)
        requires
            columns == w as u64 / low,
            low >= 1,
    ;
    if w as u64 % low == 0 && w <= EXACT_SIDE {
        columns as u128
    } else {
        (columns + columns / 1024 + 3) as u128
    }
}

/// Does scaling the file to fit keep the sums that it averages within 32
/// bits?
fn check_sums(bytes: &[u8], width: u32, height: u32) -> (r: bool)
    requires
        width > 0,
        height > 0,
    ensures
        r == sums_fit(bytes@, width, height),
{
    let (w, h) = match read_dimensions(bytes) {
        Some(size) => size,
        None => return false,
    };
    let (size, channels) = match read_layout(bytes) {
        Some(layout) => layout,
        None => return false,
    };
    let most: u128 = if size == channels {
        255
    } else if size as u32 == 2 * channels as u32 {
        65535
    } else {
        return false;
    };
    if w == 0 || h == 0 {
        return false;
    }
    let across = count_block(w, h, width, height);
    let down = count_block(h, w, height, width);
    assert(0 <= across * down <= 0x4_0000_0000_0000_0000) by (nonlinear_arith)
        requires
            across <= 0x2_0000_0000,
            down <= 0x2_0000_0000,
    ;
    let block: u128 = across * down;
    assert(block * most <= 0x4_0000_0000_0000_0000 * 65535) by (nonlinear_arith)
        requires
            block <= 0x4_0000_0000_0000_0000,
            most <= 65535,
    ;
    block * most + block / 2 <= u32::MAX as u128
}

/// A file scaled to fit: nothing where it cannot be decoded, or where what is
/// averaged would not fit in 32 bits.
pub open spec fn small_image(bytes: Seq<u8>, width: u32, height: u32) -> Option<PixelsView> {
    if sums_fit(bytes, width, height) {
        thumbnail_image(bytes, width, height)
    } else {
        None
    }
}

/// A file scaled to fit the bounds, keeping its proportions.
pub fn small_picture(bytes: &[u8], width: u32, height: u32) -> (r: Option<Pixels>)
    requires
        0 < width <= MOST_SMALL,
        0 < height <= MOST_SMALL,
    ensures
        (match r {
            Some(p) => Some(p@),
            None => None,
        }) == small_image(bytes@, width, height),
        r matches Some(p) ==> p.wf() && p.width <= width && p.height <= height,
{
    if check_sums(bytes, width, height) {
        thumbnail_rgba(bytes, width, height)
    } else {
        None
    }
}

/// The widest and highest picture that is written as a file.
pub const MOST_SIDE: u32 = 4096;

/// What the PNG encoder of `image` makes of a picture.
pub uninterp spec fn png_file(width: u32, height: u32, rgba: Seq<u8>) -> Option<Seq<u8>>;

/// `RgbaImage::from_raw`, then `ImageBuffer::write_to` as a PNG file: writes
/// a picture as a file. The outcome depends on the arguments alone and is
/// named by [`png_file`]. PNG loses nothing, so decoding the file gives the
/// picture back; the bounds keep it within what the decoder takes.
#[verifier::external_body]
pub(crate) fn encode_png(width: u32, height: u32, rgba: Vec<u8>) -> (r: Option<Vec<u8>>)
    requires
        0 < width <= MOST_SIDE,
        0 < height <= MOST_SIDE,
        rgba@.len() == 4 * width * height,
    ensures
        (match r {
            Some(bytes) => Some(bytes@),
            None => None,
        }) == png_file(width, height, rgba@),
        r matches Some(bytes) ==> decodes_to(bytes@, width, height, rgba@),
{
    let mut bytes: Vec<u8> = Vec::new();
    let picture = image::RgbaImage::from_raw(width, height, rgba)?;
    match picture.write_to(&mut std::io::Cursor::new(&mut bytes), image::ImageFormat::Png) {
        Ok(()) => Some(bytes),
        Err(_) => None,
    }
}

/// What `base64` makes of bytes: the standard alphabet, padded.
pub uninterp spec fn base64_text(bytes: Seq<u8>) -> Seq<char>;

/// What bytes a text stands for in the standard alphabet, padded; nothing
/// where it stands for none.
pub uninterp spec fn base64_bytes(text: Seq<char>) -> Option<Seq<u8>>;

/// The text for so many bytes is no longer than a string can be.
pub open spec fn fits_text(len: nat) -> bool {
    len / 3 * 4 + 4 <= isize::MAX
}

/// `Engine::encode` of `base64`'s `STANDARD` engine: the text for these
/// bytes, named by [`base64_text`]. Decoding gives the bytes back.
#[verifier::external_body]
pub(crate) fn base64_encode(bytes: &[u8]) -> (r: String)
    requires
        fits_text(bytes@.len()),
    ensures
        r@ == base64_text(bytes@),
        base64_bytes(r@) == Some(bytes@),
{
    base64::engine::general_purpose::STANDARD.encode(bytes)
}

/// `Engine::decode` of `base64`'s `STANDARD` engine: the bytes that a text
/// stands for, named by [`base64_bytes`].
#[verifier::external_body]
pub(crate) fn base64_decode(text: &str) -> (r: Option<Vec<u8>>)
    ensures
        (match r {
            Some(bytes) => Some(bytes@),
            None => None,
        }) == base64_bytes(text@),
{
    base64::engine::general_purpose::STANDARD.decode(text).ok()
}

/// The size of a picture that is embedded as text, without decoding it.
pub fn decoded_size(data_base64: &str) -> (r: Option<(u32, u32)>)
    ensures
        r == (match base64_bytes(data_base64@) {
            Some(bytes) => image_dimensions(bytes),
            None => None,
        }),
{
    match base64_decode(data_base64) {
        Some(bytes) => read_dimensions(bytes.as_slice()),
        None => None,
    }
}

/// A picture that is embedded as text.
pub fn decode_texture(data_base64: &str) -> (r: Option<Pixels>)
    ensures
        (match r {
            Some(p) => Some(p@),
            None => None,
        }) == (match base64_bytes(data_base64@) {
            Some(bytes) => match decoded_image(bytes) {
                Ok(p) => Some(p),
                Err(_) => None,
            },
            None => None,
        }),
        r matches Some(p) ==> p.wf(),
{
    match base64_decode(data_base64) {
        Some(bytes) => match decode_rgba(bytes.as_slice()) {
            Ok(p) => Some(p),
            Err(_) => None,
        },
        None => None,
    }
}

/// A map of a material, decoded from the bytes of its file.
pub fn cpu_texture(bytes: &Vec<u8>) -> (r: Option<Pixels>)
    ensures
        (match r {
            Some(p) => Some(p@),
            None => None,
        }) == (match decoded_image(bytes@) {
            Ok(p) => Some(p),
            Err(_) => None,
        }),
        r matches Some(p) ==> p.wf(),
{
    match decode_rgba(bytes.as_slice()) {
        Ok(p) => Some(p),
        Err(_) => None,
    }
}

/// The picture of a material in a list, at most this many pixels wide and
/// high.
pub const LIST_THUMB: u32 = 128;

/// A picture for a list, from the bytes of a file.
pub fn list_thumbnail(bytes: &Vec<u8>) -> (r: Option<Pixels>)
    ensures
        (match r {
            Some(p) => Some(p@),
            None => None,
        }) == small_image(bytes@, LIST_THUMB, LIST_THUMB),
        r matches Some(p) ==> p.wf() && p.width <= LIST_THUMB && p.height <= LIST_THUMB,
{
    small_picture(bytes.as_slice(), LIST_THUMB, LIST_THUMB)
}

/// The sums of the channels of a picture, and how many pixels were summed.
#[derive(Clone, Copy, PartialEq, Eq, Structural, Debug)]
pub struct ColorSums {
    pub r: u64,
    pub g: u64,
    pub b: u64,
    /// At least one, so that it can be divided by.
    pub pixels: u64,
}

/// The sum of one channel over the first `n` pixels.
pub open spec fn channel_sum(rgba: Seq<u8>, channel: int, n: nat) -> nat
    decreases n,
{
    if n == 0 {
        0
    } else {
        channel_sum(rgba, channel, (n - 1) as nat) + rgba[4 * (n - 1) + channel] as nat
    }
}

/// The sums of the channels of a picture.
pub open spec fn sums_of(rgba: Seq<u8>) -> (nat, nat, nat, nat) {
    let n = rgba.len() / 4;
    (
        channel_sum(rgba, 0, n),
        channel_sum(rgba, 1, n),
        channel_sum(rgba, 2, n),
        if n == 0 {
            1
        } else {
            n
        },
    )
}

/// The sums of the channels of a picture.
pub fn color_sums(rgba: &Vec<u8>) -> (r: ColorSums)
    requires
        rgba@.len() <= 0xff_ffff_ffff,
    ensures
        (r.r as nat, r.g as nat, r.b as nat, r.pixels as nat) == sums_of(rgba@),
{
    let total: usize = rgba.len();
    let count: usize = total / 4;
    let mut r: u64 = 0;
    let mut g: u64 = 0;
    let mut b: u64 = 0;
    let mut n: usize = 0;
    while n < count
        invariant
            n <= count,
            count == total / 4,
            total == rgba@.len(),
            total <= 0xff_ffff_ffff,
            r == channel_sum(rgba@, 0, n as nat),
            g == channel_sum(rgba@, 1, n as nat),
            b == channel_sum(rgba@, 2, n as nat),
            r <= 255 * n,
            g <= 255 * n,
            b <= 255 * n,
        decreases count - n,
    {
        r = r + rgba[4 * n] as u64;
        g = g + rgba[4 * n + 1] as u64;
        b = b + rgba[4 * n + 2] as u64;
        n += 1;
    }
    ColorSums {
        r,
        g,
        b,
        pixels: if count == 0 {
            1
        } else {
            count as u64
        },
    }
}

/// The side of the picture that a colour is averaged over.
pub const SAMPLE_SIDE: u32 = 32;

/// The sums that the average colour of a file is made from; nothing where it
/// has no small picture.
pub fn sample_color_sums(bytes: &Vec<u8>) -> (r: Option<ColorSums>)
    ensures
        r is Some == small_image(bytes@, SAMPLE_SIDE, SAMPLE_SIDE) is Some,
        r matches Some(sums) ==> (
            sums.r as nat,
            sums.g as nat,
            sums.b as nat,
            sums.pixels as nat,
        ) == sums_of(small_image(bytes@, SAMPLE_SIDE, SAMPLE_SIDE)->0.rgba),
{
    match small_picture(bytes.as_slice(), SAMPLE_SIDE, SAMPLE_SIDE) {
        Some(p) => {
            assert(p.rgba@.len() <= 4 * 32 * 32) by (nonlinear_arith)
                requires
                    p.rgba@.len() == 4 * p.width * p.height,
                    p.width <= 32,
                    p.height <= 32,
            ;
            Some(color_sums(&p.rgba))
        },
        None => None,
    }
}

/// The first channel of a map, where it has the size of another; otherwise
/// the value that stands for none.
pub open spec fn channel_or(
    map: Option<PixelsView>,
    width: u32,
    height: u32,
    i: int,
    none: u8,
) -> u8 {
    match map {
        Some(p) => if p.width == width && p.height == height {
            p.rgba[4 * i]
        } else {
            none
        },
        None => none,
    }
}

/// The first `n` pixels of a packed map: occlusion, roughness, metalness.
pub open spec fn packed(
    occlusion: Option<PixelsView>,
    roughness: PixelsView,
    metallic: Option<PixelsView>,
    n: nat,
) -> Seq<u8>
    decreases n,
{
    if n == 0 {
        seq![]
    } else {
        packed(occlusion, roughness, metallic, (n - 1) as nat) + seq![
            channel_or(occlusion, roughness.width, roughness.height, n - 1, 255),
            roughness.rgba[4 * (n - 1)],
            channel_or(metallic, roughness.width, roughness.height, n - 1, 0),
            255u8,
        ]
    }
}

/// What an optional picture holds.
pub open spec fn maybe_view(p: Option<&Pixels>) -> Option<PixelsView> {
    match p {
        Some(p) => Some(p@),
        None => None,
    }
}

fn read_channel(map: Option<&Pixels>, width: u32, height: u32, i: usize, none: u8) -> (r: u8)
    requires
        map matches Some(p) ==> p.wf(),
        i < width * height,
        4 * width * height <= usize::MAX,
    ensures
        r == channel_or(maybe_view(map), width, height, i as int, none),
{
    match map {
        Some(p) => if p.width == width && p.height == height {
            assert(4 * i < 4 * width * height) by (nonlinear_arith)
                requires
                    i < width * height,
            ;
            p.rgba[4 * i]
        } else {
            none
        },
        None => none,
    }
}

/// Packs the maps of a material into one: occlusion in the red channel,
/// roughness in the green one, metalness in the blue one. There is no packed
/// map without roughness; a map of another size counts as missing.
pub fn pack_orm(
    occlusion: Option<&Pixels>,
    roughness: Option<&Pixels>,
    metallic: Option<&Pixels>,
) -> (r: Option<Pixels>)
    requires
        occlusion matches Some(p) ==> p.wf(),
        roughness matches Some(p) ==> p.wf(),
        metallic matches Some(p) ==> p.wf(),
    ensures
        r is Some == roughness is Some,
        r matches Some(p) ==> {
            let rough = roughness->0;
            &&& p.wf()
            &&& p.width == rough.width
            &&& p.height == rough.height
            &&& p.rgba@ == packed(
                maybe_view(occlusion),
                rough@,
                maybe_view(metallic),
                (rough.width * rough.height) as nat,
            )
        },
{
    match roughness {
        None => None,
        Some(rough) => {
            let total: usize = rough.rgba.len();
            let count: usize = total / 4;
            let ghost pixels = rough.width * rough.height;
            assert(total == 4 * pixels) by (nonlinear_arith)
                requires
                    total == 4 * rough.width * rough.height,
                    pixels == rough.width * rough.height,
            ;
            let mut out: Vec<u8> = Vec::new();
            let mut n: usize = 0;
            while n < count
                invariant
                    n <= count,
                    count == pixels,
                    total == 4 * count,
                    total == rough.rgba@.len(),
                    pixels == rough.width * rough.height,
                    4 * rough.width * rough.height == total,
                    rough.wf(),
                    occlusion matches Some(p) ==> p.wf(),
                    metallic matches Some(p) ==> p.wf(),
                    out@.len() == 4 * n,
                    out@ == packed(
                        maybe_view(occlusion),
                        rough@,
                        maybe_view(metallic),
                        n as nat,
                    ),
                decreases count - n,
            {
                let ghost before = out@;
                let o = read_channel(occlusion, rough.width, rough.height, n, 255);
                let g = rough.rgba[4 * n];
                let m = read_channel(metallic, rough.width, rough.height, n, 0);
                out.push(o);
                out.push(g);
                out.push(m);
                out.push(255);
                n += 1;
                assert(out@ =~= before + seq![o, g, m, 255u8]);
            }
            Some(Pixels { width: rough.width, height: rough.height, rgba: out })
        },
    }
}

/// Occlusion, roughness and metal share one picture, in the red, the green
/// and the blue of each pixel. A map that is missing or of another size
/// counts as open to the light, and as no metal.
pub proof fn law_maps_share_a_picture(
    occlusion: Option<PixelsView>,
    roughness: PixelsView,
    metallic: Option<PixelsView>,
    n: nat,
    i: int,
)
    requires
        0 <= i < n,
    ensures
        ({
            let out = packed(occlusion, roughness, metallic, n);
            &&& out.len() == 4 * n
            &&& out[4 * i + 1] == roughness.rgba[4 * i]
            &&& out[4 * i + 3] == 255
            &&& occlusion is None ==> out[4 * i] == 255
            &&& metallic is None ==> out[4 * i + 2] == 0
            &&& occlusion matches Some(p) ==> out[4 * i] == (if p.width == roughness.width
                && p.height == roughness.height {
                p.rgba[4 * i]
            } else {
                255
            })
            &&& metallic matches Some(p) ==> out[4 * i + 2] == (if p.width == roughness.width
                && p.height == roughness.height {
                p.rgba[4 * i]
            } else {
                0
            })
        }),
    decreases n,
{
    if n > 1 {
        law_maps_share_a_picture(
            occlusion,
            roughness,
            metallic,
            (n - 1) as nat,
            if i < n - 1 {
                i
            } else {
                0
            },
        );
    } else {
        assert(packed(occlusion, roughness, metallic, 0).len() == 0);
    }
}

/// The average of a color is one that a pixel can have, and that of a
/// picture of one color is that color.
pub proof fn law_averages_are_colors(rgba: Seq<u8>, channel: int, n: nat, c: u8)
    ensures
        channel_sum(rgba, channel, n) <= 255 * n,
        (forall|i: int| 0 <= i < n ==> #[trigger] rgba[4 * i + channel] == c) ==> channel_sum(
            rgba,
            channel,
            n,
        ) == c * n,
    decreases n,
{
    if n > 0 {
        law_averages_are_colors(rgba, channel, (n - 1) as nat, c);
        assert(c * n == c * (n - 1) + c) by (nonlinear_arith)
            requires
                n > 0,
        ;
        if forall|i: int| 0 <= i < n ==> #[trigger] rgba[4 * i + channel] == c {
            assert(rgba[4 * (n - 1) + channel] == c);
        }
    } else {
        assert(c * n == 0) by (nonlinear_arith)
            requires
                n == 0,
        ;
    }
}

/// Red, green and blue are summed over all pixels, each from its own place,
/// and alpha is not; there is always something to divide by.
pub proof fn law_sums_are_of_their_channel(rgba: Seq<u8>)
    ensures
        sums_of(rgba).3 >= 1,
        rgba.len() >= 4 ==> sums_of(rgba).3 == rgba.len() / 4,
        rgba.len() == 4 ==> sums_of(rgba) == (
            rgba[0] as nat,
            rgba[1] as nat,
            rgba[2] as nat,
            1nat,
        ),
{
    reveal_with_fuel(channel_sum, 2);
}

} // verus!
