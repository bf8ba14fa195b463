//! Image XObjects: the decoding parameters read from the dictionary, and the
//! samples decoded into RGB pixels.
use vstd::prelude::*;

use crate::cross_reference;
use crate::object;
use crate::object::{PdfDict, PdfIndirectObj, PdfInteger, PdfName};
use crate::parser::Object;
use vstd::slice::slice_to_vec;

verus! {

/// Why an image could not be decoded.
#[derive(Debug)]
pub enum Error {
    Object(object::Error),
    UnsupporttedColorSpace,
    /// The image stream is not valid zlib data.
    InvalidCompressedData,
    /// Width or height is not a positive 32-bit number, or the samples do
    /// not fill the image.
    InvalidImageSize,
}

/// Colour spaces the decoder handles.
#[derive(Debug, Clone, Copy, PartialEq, Eq)]
pub enum ColorSpace {
    DeviceGray,
    DeviceRGB,
}

impl ColorSpace {
    pub open spec fn spec_channels(self) -> nat {
        match self {
            ColorSpace::DeviceGray => 1,
            ColorSpace::DeviceRGB => 3,
        }
    }
}

/// What decoding an image needs from its dictionary.
#[derive(Debug, Clone, Copy, PartialEq, Eq)]
pub struct ImageDecodeParam {
    pub width: u32,
    pub height: u32,
    pub colorspace: ColorSpace,
}

/// An image as 8-bit RGB pixels, row by row.
#[derive(Debug, Clone, PartialEq)]
pub struct RgbImage {
    pub width: u32,
    pub height: u32,
    pub pixels: Vec<u8>,
}

/// The zlib-decompressed form of `b`, where `b` is valid zlib data.
pub uninterp spec fn zlib_inflated(b: Seq<u8>) -> Option<Seq<u8>>;

/// Relies on flate2's `ZlibDecoder` read to the end: the decompressed bytes,
/// or an error where the data is not valid zlib.
#[verifier::external_body]
fn inflate(b: &[u8]) -> (r: Option<Vec<u8>>)
    ensures
        r is Some <==> zlib_inflated(b@) is Some,
        r matches Some(v) ==> zlib_inflated(b@) == Some(v@),
{
    let mut out: Vec<u8> = Vec::new();
    std::io::Read::read_to_end(&mut flate2::read::ZlibDecoder::new(b), &mut out).ok().map(|_| out)
}

/// RGB pixels of `samples` read as a `width` by `height` image: gray
/// samples repeat into the three channels; samples past the image are left
/// out.
pub open spec fn rgb_pixels(p: ImageDecodeParam, samples: Seq<u8>) -> Seq<u8> {
    match p.colorspace {
        ColorSpace::DeviceRGB => samples,
        ColorSpace::DeviceGray => gray_expanded(p.width as int, p.height as int, samples),
    }
}

/// Each of the first `width * height` gray samples repeated into three
/// channels.
pub open spec fn gray_expanded(width: int, height: int, samples: Seq<u8>) -> Seq<u8> {
    Seq::new((width * height * 3) as nat, |k: int| samples[k / 3])
}

/// Relies on the image crate: `ImageBuffer::<Luma<u8>, _>::from_raw`, which
/// refuses fewer than `width * height` samples, then
/// `DynamicImage::into_rgb8`, which repeats each gray sample of the
/// `width * height` pixels into the three channels.
#[verifier::external_body]
fn gray_to_rgb8(width: u32, height: u32, samples: Vec<u8>) -> (r: Option<Vec<u8>>)
    requires
        width * height * 3 <= usize::MAX,
    ensures
        r is Some <==> width * height <= samples@.len(),
        r matches Some(v) ==> v@ == gray_expanded(width as int, height as int, samples@),
{
    image::ImageBuffer::<image::Luma<u8>, Vec<u8>>::from_raw(width, height, samples).map(
        |b| image::DynamicImage::ImageLuma8(b).into_rgb8().into_raw(),
    )
}

/// Relies on the image crate: `ImageBuffer::<Rgb<u8>, _>::from_raw`, which
/// refuses fewer than `width * height * 3` samples or a size past `usize`,
/// then `DynamicImage::into_rgb8`, which keeps an RGB buffer as it is.
#[verifier::external_body]
fn rgb_to_rgb8(width: u32, height: u32, samples: Vec<u8>) -> (r: Option<Vec<u8>>)
    ensures
        (r is Some) == (width * height * 3 <= usize::MAX && width * height * 3 <= samples@.len()),
        r matches Some(v) ==> v@ == samples@,
{
    image::ImageBuffer::<image::Rgb<u8>, Vec<u8>>::from_raw(width, height, samples).map(
        |b| image::DynamicImage::ImageRgb8(b).into_rgb8().into_raw(),
    )
}

impl ImageDecodeParam {
    /// Reads `Width`, `Height` and `ColorSpace` from the dictionary of an
    /// image XObject; the colour space may be a reference to a name.
    pub fn new(image_dict: &PdfDict, source: &[u8], xref: &cross_reference::XRef) -> (r: Result<
        ImageDecodeParam,
        Error,
    >)
        requires
            xref.wf(),
        ensures
            r matches Ok(p) ==> p.width > 0 && p.height > 0 && (image_dict.spec_get("Width"@) matches Some(
                Object::Integer(w),
            ) && w.payload == p.width) && (image_dict.spec_get("Height"@) matches Some(
                Object::Integer(h),
            ) && h.payload == p.height) && (image_dict.spec_get("Subtype"@) matches Some(
                Object::Name(n),
            ) && n.payload@ == "Image"@),
    {
        if let Err(e) = image_dict.assert_with_key(vec!["Subtype", "Width", "Height", "ColorSpace"]) {
            return Err(Error::Object(e));
        }
        let subtype = match PdfName::ensure(image_dict.get("Subtype").unwrap()) {
            Ok(n) => n,
            Err(e) => return Err(Error::Object(e)),
        };
        if !subtype.is("Image") {
            return Err(Error::Object(
                object::Error::DictTypeMissMatch("Image".to_owned(), subtype.payload.clone()),
            ));
        }
        let width = match PdfInteger::ensure(image_dict.get("Width").unwrap()) {
            Ok(i) => i.unpack(),
            Err(e) => return Err(Error::Object(e)),
        };
        let height = match PdfInteger::ensure(image_dict.get("Height").unwrap()) {
            Ok(i) => i.unpack(),
            Err(e) => return Err(Error::Object(e)),
        };
        if width <= 0 || height <= 0 || width as u128 > u32::MAX as u128 || height as u128
            > u32::MAX as u128 {
            return Err(Error::InvalidImageSize);
        }
        let colorspace = get_colorspace(image_dict, source, xref)?;
        Ok(ImageDecodeParam { width: width as u32, height: height as u32, colorspace })
    }
}

/// Colour space named by `name`.
pub fn colorspace_of(name: &PdfName) -> (r: Result<ColorSpace, Error>)
    ensures
        match r {
            Ok(c) => (c == ColorSpace::DeviceRGB && name.payload@ == "DeviceRGB"@) || (c
                == ColorSpace::DeviceGray && name.payload@ == "DeviceGray"@),
            Err(e) => name.payload@ != "DeviceRGB"@ && name.payload@ != "DeviceGray"@ && e
                is UnsupporttedColorSpace,
        },
{
    if name.is("DeviceRGB") {
        Ok(ColorSpace::DeviceRGB)
    } else if name.is("DeviceGray") {
        Ok(ColorSpace::DeviceGray)
    } else {
        Err(Error::UnsupporttedColorSpace)
    }
}

/// The colour space of an image dictionary: a name, or a reference to an
/// indirect object that holds a name.
pub fn get_colorspace(image_dict: &PdfDict, source: &[u8], xref: &cross_reference::XRef) -> (r: Result<
    ColorSpace,
    Error,
>)
    requires
        xref.wf(),
    ensures
        image_dict.spec_get("ColorSpace"@) is None ==> r is Err,
        image_dict.spec_get("ColorSpace"@) matches Some(Object::Name(n)) ==> match r {
            Ok(c) => (c == ColorSpace::DeviceRGB && n.payload@ == "DeviceRGB"@) || (c
                == ColorSpace::DeviceGray && n.payload@ == "DeviceGray"@),
            Err(e) => n.payload@ != "DeviceRGB"@ && n.payload@ != "DeviceGray"@ && e
                is UnsupporttedColorSpace,
        },
{
    match image_dict.get("ColorSpace") {
        Some(Object::Name(name)) => colorspace_of(name),
        Some(Object::IndirectRef(indirect_ref)) => {
            let resolved = match indirect_ref.get_indirect_obj(source, xref) {
                Ok(o) => o,
                Err(e) => return Err(Error::Object(e)),
            };
            let inner = match PdfIndirectObj::ensure(&resolved) {
                Ok(x) => x,
                Err(e) => return Err(Error::Object(e)),
            };
            match inner.get_object() {
                Object::Name(name) => colorspace_of(name),
                _ => Err(Error::UnsupporttedColorSpace),
            }
        },
        _ => Err(Error::UnsupporttedColorSpace),
    }
}

/// RGB pixels from decompressed samples; the samples must fill the image.
pub fn samples_to_rgb(image: &ImageDecodeParam, samples: &[u8]) -> (r: Result<RgbImage, Error>)
    ensures
        (image.width * image.height * image.colorspace.spec_channels() <= samples@.len()
            && image.width * image.height * 3 <= usize::MAX) <==> r is Ok,
        r matches Ok(img) ==> img.width == image.width && img.height == image.height
            && img.pixels@ == rgb_pixels(*image, samples@),
        r matches Err(e) ==> e is InvalidImageSize,
{
    let w = image.width as u128;
    let h = image.height as u128;
    assert(w * h * 3 <= 0xffff_ffff_ffff_ffff_ffff_ffff_ffff_ffff) by (nonlinear_arith)
        requires
            w <= 0xffff_ffff,
            h <= 0xffff_ffff,
    ;
    if w * h * 3 > usize::MAX as u128 {
        return Err(Error::InvalidImageSize);
    }
    let converted = match image.colorspace {
        ColorSpace::DeviceGray => gray_to_rgb8(image.width, image.height, slice_to_vec(samples)),
        ColorSpace::DeviceRGB => rgb_to_rgb8(image.width, image.height, slice_to_vec(samples)),
    };
    match converted {
        Some(pixels) => Ok(RgbImage { width: image.width, height: image.height, pixels }),
        None => Err(Error::InvalidImageSize),
    }
}

/// Decompresses a zlib image stream and turns its samples into RGB pixels.
pub fn decode_image(image: &ImageDecodeParam, byte_vec: &Vec<u8>) -> (r: Result<RgbImage, Error>)
    ensures
        zlib_inflated(byte_vec@) is None ==> r matches Err(Error::InvalidCompressedData),
        zlib_inflated(byte_vec@) matches Some(samples) ==> match r {
            Ok(img) => img.pixels@ == rgb_pixels(*image, samples) && img.width == image.width
                && img.height == image.height,
            Err(e) => e is InvalidImageSize,
        },
        zlib_inflated(byte_vec@) matches Some(samples) ==> (r is Ok <==> (image.width * image.height
            * image.colorspace.spec_channels() <= samples.len() && image.width * image.height * 3
            <= usize::MAX)),
{
    match inflate(byte_vec.as_slice()) {
        Some(samples) => samples_to_rgb(image, samples.as_slice()),
        None => Err(Error::InvalidCompressedData),
    }
}

} // verus!
