use vstd::prelude::*;

verus! {

/// Length of the fixed header at the start of every encoded image.
pub const QOI_HEADER_SIZE: usize = 14;

/// Number of bytes that must remain after the cursor before a token is read;
/// an encoded stream ends with this many bytes of padding.
pub const QOI_PADDING: usize = 8;

/// The four magic bytes `qoif`, read big-endian.
pub const QOI_MAGIC: u32 = 0x716f6966;

/// Color mode of an image: the channel count together with the color-space tag.
#[derive(Clone, Copy, Debug, PartialEq, Eq, Structural)]
pub enum Colors {
    /// Three channels, sRGB.
    Srgb,
    /// Four channels, sRGB color with linear alpha.
    SrgbLinA,
    /// Three channels, all linear.
    Rgb,
    /// Four channels, all linear.
    Rgba,
}

impl Colors {
    pub open spec fn spec_has_alpha(&self) -> bool {
        self is SrgbLinA || self is Rgba
    }

    /// Number of bytes each pixel takes in the decoded output.
    pub open spec fn channels(self) -> int {
        if self.spec_has_alpha() {
            4
        } else {
            3
        }
    }

    /// Whether the decoded output carries an alpha channel.
    #[verifier::when_used_as_spec(spec_has_alpha)]
    pub fn has_alpha(&self) -> (r: bool)
        ensures
            r == self.spec_has_alpha(),
    {
        match self {
            Colors::SrgbLinA | Colors::Rgba => true,
            _ => false,
        }
    }
}

/// Ways in which decoding can fail.
#[derive(Clone, Copy, Debug, PartialEq, Eq, Structural)]
pub enum DecodeError {
    /// The input is shorter than the header, or ends before every pixel is decoded.
    DataIsTooSmall,
    /// The first four bytes are not the magic value.
    InvalidMagic,
    /// The channel count is neither 3 nor 4.
    InvalidChannelsValue,
    /// The color-space tag is neither 0 nor 1.
    InvalidColorSpaceValue,
    /// The output buffer cannot hold the image, or a run goes past its last pixel.
    OutputIsTooSmall,
}

/// Description of an image: its dimensions and its color mode.
#[derive(Clone, Copy, Debug, PartialEq, Eq, Structural)]
pub struct Qoi {
    pub width: u32,
    pub height: u32,
    pub colors: Colors,
}

/// The big-endian integer held by the four bytes of `b` starting at `at`.
pub open spec fn be_u32(b: Seq<u8>, at: int) -> int {
    b[at] * 0x1000000 + b[at + 1] * 0x10000 + b[at + 2] * 0x100 + b[at + 3]
}

/// The color mode named by a channel count and a color-space tag.
pub open spec fn colors_of(channels: u8, colorspace: u8) -> Result<Colors, DecodeError> {
    if colorspace > 1 {
        Err(DecodeError::InvalidColorSpaceValue)
    } else if channels == 3 {
        Ok(if colorspace == 0 { Colors::Srgb } else { Colors::Rgb })
    } else if channels == 4 {
        Ok(if colorspace == 0 { Colors::SrgbLinA } else { Colors::Rgba })
    } else {
        Err(DecodeError::InvalidChannelsValue)
    }
}

/// The header held by the first bytes of `b`, or the reason it is not one.
pub open spec fn header_of(b: Seq<u8>) -> Result<Qoi, DecodeError> {
    if b.len() < QOI_HEADER_SIZE {
        Err(DecodeError::DataIsTooSmall)
    } else if be_u32(b, 0) != QOI_MAGIC {
        Err(DecodeError::InvalidMagic)
    } else {
        match colors_of(b[12], b[13]) {
            Ok(colors) => Ok(Qoi { width: be_u32(b, 4) as u32, height: be_u32(b, 8) as u32, colors }),
            Err(e) => Err(e),
        }
    }
}

/// Reads the big-endian integer at `at`.
fn read_be_u32(bytes: &[u8], at: usize) -> (r: u32)
    requires
        at + 4 <= bytes@.len(),
    ensures
        r as int == be_u32(bytes@, at as int),
{
    (bytes[at] as u32) * 0x1000000 + (bytes[at + 1] as u32) * 0x10000 + (bytes[at + 2] as u32)
        * 0x100 + bytes[at + 3] as u32
}

impl Qoi {
    /// Number of pixels in the image.
    pub open spec fn pixel_count(self) -> int {
        self.width * self.height
    }

    /// Number of bytes the decoded image takes.
    pub open spec fn spec_decoded_size(self) -> int {
        self.pixel_count() * self.colors.channels()
    }

    /// Number of bytes the decoded image takes: width times height times the
    /// channel count.
    pub fn decoded_size(&self) -> (r: usize)
        requires
            self.spec_decoded_size() <= usize::MAX,
        ensures
            r as int == self.spec_decoded_size(),
    {
        let ch: usize = if self.colors.has_alpha() { 4 } else { 3 };
        proof {
            vstd::arithmetic::mul::lemma_mul_nonnegative(self.width as int, self.height as int);
            vstd::arithmetic::mul::lemma_mul_inequality(
                1,
                self.colors.channels(),
                self.pixel_count(),
            );
        }
        self.width as usize * self.height as usize * ch
    }

    /// Reads the header at the start of `bytes`.
    pub fn decode_header(bytes: &[u8]) -> (r: Result<Qoi, DecodeError>)
        ensures
            r == header_of(bytes@),
    {
        if bytes.len() < QOI_HEADER_SIZE {
            return Err(DecodeError::DataIsTooSmall);
        }
        let magic = read_be_u32(bytes, 0);
        if magic != QOI_MAGIC {
            return Err(DecodeError::InvalidMagic);
        }
        let w = read_be_u32(bytes, 4);
        let h = read_be_u32(bytes, 8);
        let channels = bytes[12];
        let colorspace = bytes[13];
        let colors = match (channels, colorspace) {
            (3, 0) => Colors::Srgb,
            (4, 0) => Colors::SrgbLinA,
            (3, 1) => Colors::Rgb,
            (4, 1) => Colors::Rgba,
            (_, 0 | 1) => return Err(DecodeError::InvalidChannelsValue),
            (_, _) => return Err(DecodeError::InvalidColorSpaceValue),
        };
        Ok(Qoi { width: w, height: h, colors })
    }
}

} // verus!
