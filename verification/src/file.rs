//! The binary `.irb` encoding: a fixed magic header, metadata at fixed
//! absolute byte offsets, and a row-major pixel payload.
//!
//! The offsets are empirical (reverse-engineered from sample files, not a
//! published format definition) and are treated as a fixed contract for
//! this format version.

use vstd::prelude::*;

use crate::image::Image;
use crate::utils::decoded_text;
use crate::utils::is_well_padded;
use crate::utils::FixedLengthString;
use crate::Error;

verus! {

/// Where the software-version field starts.
pub const VERSION_STRING_OFFSET: usize = 5;

/// How many bytes the software-version field holds.
pub const VERSION_STRING_LENGTH: usize = 15;

/// Where the two 32-bit version integers start.
pub const VERSION_OFFSET: usize = 20;

/// Where the 16-bit width and height stand.
pub const DIMENSIONS_OFFSET: usize = 6059;

/// How many leading bytes the header decoder reads.
pub const HEADER_LENGTH: usize = 6063;

/// Where the pixel payload starts.
pub const PAYLOAD_OFFSET: usize = 6119;

/// The little-endian 16-bit value whose two bytes sit at offset `off`.
pub open spec fn le16(s: Seq<u8>, off: int) -> int {
    s[off] + 0x100 * s[off + 1]
}

/// The little-endian 32-bit value whose four bytes sit at offset `off`.
pub open spec fn le32(s: Seq<u8>, off: int) -> int {
    s[off] + 0x100 * s[off + 1] + 0x10000 * s[off + 2] + 0x1000000 * s[off + 3]
}

/// The five magic bytes that open every binary `.irb` file.
pub open spec fn magic_ok(s: Seq<u8>) -> bool {
    &&& s.len() >= 5
    &&& s[0] == 0xff
    &&& s[1] == 0x49
    &&& s[2] == 0x52
    &&& s[3] == 0x42
    &&& s[4] == 0x00
}

/// Reads the little-endian 16-bit value at offset `off`.
fn read_u16_le(bytes: &Vec<u8>, off: usize) -> (r: u16)
    requires
        off + 2 <= bytes@.len(),
    ensures
        r == le16(bytes@, off as int),
{
    let _n: usize = bytes.len();
    (bytes[off] as u16) + (bytes[off + 1] as u16) * 0x100
}

/// Reads the little-endian 32-bit value at offset `off`.
fn read_u32_le(bytes: &Vec<u8>, off: usize) -> (r: u32)
    requires
        off + 4 <= bytes@.len(),
    ensures
        r == le32(bytes@, off as int),
{
    let _n: usize = bytes.len();
    (bytes[off] as u32) + (bytes[off + 1] as u32) * 0x100 + (bytes[off + 2] as u32) * 0x10000 + (
    bytes[off + 3] as u32) * 0x1000000
}

/// The version of an `.irb` file: the pair of 32-bit integers that follow
/// the software-version field.
#[derive(Clone, Copy, Debug, PartialEq, Eq, Structural)]
pub struct Version(pub u32, pub u32);

/// A binary `.irb` file's header, read once when the file is opened and
/// immutable thereafter.  The pixel payload that follows at
/// `PAYLOAD_OFFSET` is decoded separately by [`File::read_image`].
#[derive(Debug)]
pub struct File {
    height: u16,
    software_version: String,
    version: Version,
    width: u16,
}

impl File {
    /// The decoded software-version text.
    pub closed spec fn spec_software_version(&self) -> Seq<char> {
        self.software_version@
    }

    /// The file-format version pair.
    pub closed spec fn spec_version(&self) -> Version {
        self.version
    }

    /// The image width recorded in the header.
    pub closed spec fn spec_width(&self) -> u16 {
        self.width
    }

    /// The image height recorded in the header.
    pub closed spec fn spec_height(&self) -> u16 {
        self.height
    }

    /// Decodes a header from the leading bytes of a binary `.irb` file.
    ///
    /// The steps fail fast, in order: fewer than five bytes is a truncated
    /// file (`Io`); the five magic bytes must match (`InvalidHeader` with
    /// the bytes observed); the input must reach past the dimension fields
    /// (`Io`); the software-version field must be well padded
    /// (`InteriorNulByte`).  The reserved 32-bit field after the version
    /// pair is skipped and not retained.
    pub fn from_bytes(bytes: &Vec<u8>) -> (r: Result<File, Error>)
        ensures
            bytes@.len() < 5 ==> r == Err::<File, Error>(Error::Io),
            bytes@.len() >= 5 && !magic_ok(bytes@) ==> (r matches Err(e) && e
                matches Error::InvalidHeader(m) && m@ == bytes@.subrange(0, 5)),
            magic_ok(bytes@) && bytes@.len() < HEADER_LENGTH ==> r == Err::<File, Error>(Error::Io),
            magic_ok(bytes@) && bytes@.len() >= HEADER_LENGTH && !is_well_padded(
                bytes@.subrange(5, 20),
            ) ==> (r matches Err(e) && e matches Error::InteriorNulByte(b) && b@ == bytes@.subrange(
                5,
                20,
            )),
            magic_ok(bytes@) && bytes@.len() >= HEADER_LENGTH && is_well_padded(
                bytes@.subrange(5, 20),
            ) ==> (r matches Ok(f) && f.spec_software_version() == decoded_text(
                bytes@.subrange(5, 20),
            ) && f.spec_version().0 == le32(bytes@, 20) && f.spec_version().1 == le32(bytes@, 24)
                && f.spec_width() == le16(bytes@, 6059) && f.spec_height() == le16(bytes@, 6061)),
    {
        if bytes.len() < 5 {
            return Err(Error::Io);
        }
        if !(bytes[0] == 0xff && bytes[1] == 0x49 && bytes[2] == 0x52 && bytes[3] == 0x42 && bytes[4]
            == 0x00) {
            let m = [bytes[0], bytes[1], bytes[2], bytes[3], bytes[4]];
            assert(m@ =~= bytes@.subrange(0, 5));
            return Err(Error::InvalidHeader(m));
        }
        if bytes.len() < HEADER_LENGTH {
            return Err(Error::Io);
        }
        let field = vstd::slice::slice_to_vec(
            vstd::slice::slice_subrange(
                bytes.as_slice(),
                VERSION_STRING_OFFSET,
                VERSION_STRING_OFFSET + VERSION_STRING_LENGTH,
            ),
        );
        let software_version = match FixedLengthString::from_bytes(field).to_string() {
            Ok(s) => s,
            Err(e) => {
                return Err(e);
            },
        };
        let version = Version(
            read_u32_le(bytes, VERSION_OFFSET),
            read_u32_le(bytes, VERSION_OFFSET + 4),
        );
        let width = read_u16_le(bytes, DIMENSIONS_OFFSET);
        let height = read_u16_le(bytes, DIMENSIONS_OFFSET + 2);
        Ok(File { height, software_version, version, width })
    }

    /// Returns the software version of this file.
    ///
    /// Because the format is reverse-engineered, what the field really
    /// means is not certain.
    pub fn software_version(&self) -> (r: &str)
        ensures
            r@ == self.spec_software_version(),
    {
        self.software_version.as_str()
    }

    /// Returns the version of this file.
    pub fn version(&self) -> (r: Version)
        ensures
            r == self.spec_version(),
    {
        self.version
    }

    /// Returns the image width recorded in the header.
    pub fn width(&self) -> (r: u16)
        ensures
            r == self.spec_width(),
    {
        self.width
    }

    /// Returns the image height recorded in the header.
    pub fn height(&self) -> (r: u16)
        ensures
            r == self.spec_height(),
    {
        self.height
    }

    /// Decodes the pixel payload that follows the header: `width * height`
    /// little-endian 32-bit samples in row-major order.  A payload shorter
    /// than that is a truncated file (`Io`); bytes past the payload are
    /// ignored.
    pub fn read_image(&self, payload: &Vec<u8>) -> (r: Result<Image, Error>)
        ensures
            payload@.len() < 4 * (self.spec_width() * self.spec_height()) ==> r == Err::<
                Image,
                Error,
            >(Error::Io),
            payload@.len() >= 4 * (self.spec_width() * self.spec_height()) ==> (r matches Ok(img)
                && img.width() == self.spec_width() && img.height() == self.spec_height() && img@
                == Seq::new(
                (self.spec_width() * self.spec_height()) as nat,
                |i: int| le32(payload@, 4 * i) as u32,
            )),
    {
        let w = self.width as usize;
        let h = self.height as usize;
        assert(w * h <= 0xffff * 0xffff) by (nonlinear_arith)
            requires
                w <= 0xffff,
                h <= 0xffff,
        ;
        let count = w * h;
        let need: u64 = 4u64 * (count as u64);
        let plen = payload.len();
        if (plen as u64) < need {
            assert(payload@.len() < 4 * count);
            return Err(Error::Io);
        }
        assert(payload@.len() >= 4 * count);
        let mut data: Vec<u32> = Vec::with_capacity(count);
        let mut i: usize = 0;
        while i < count
            invariant
                count == w * h,
                4 * count <= payload@.len(),
                4 * count <= usize::MAX,
                i <= count,
                data@ == Seq::new(i as nat, |j: int| le32(payload@, 4 * j) as u32),
            decreases count - i,
        {
            let sample = read_u32_le(payload, 4 * i);
            data.push(sample);
            i = i + 1;
            assert(data@ =~= Seq::new(i as nat, |j: int| le32(payload@, 4 * j) as u32));
        }
        match Image::new(data, w, h) {
            Ok(img) => Ok(img),
            Err(_) => {
                proof {
                    assert(false);
                }
                Err(Error::Io)
            },
        }
    }
}

} // verus!
