//! Fingerprint extraction: from the bytes of a file to the perceptual
//! fingerprint of the image they encode.
//!
//! Decoding and hashing are done by the `image` and `image_hasher` crates. What
//! they compute is not stated here; it is only given a name, so that the rest
//! of the library can say exactly which of their results ends up where.

use vstd::prelude::*;
use crate::fingerprint::{Fingerprint, MAX_FINGERPRINT_BYTES};

verus! {

/// Largest bit resolution that can be asked for: the number of bits of a
/// fingerprint, its square, has to fit in a `u32`.
pub const MAX_HASH_SIZE: u32 = 65_535;

/// `image::ImageFormat`: only carried from the path to the decoder. Nothing is
/// known of what a value of it holds.
#[verifier::external_type_specification]
#[verifier::external_body]
pub struct ExImageFormat(image::ImageFormat);

/// `image::DynamicImage`: only carried from the decoder to the hasher. Nothing
/// is known of what a value of it holds.
#[verifier::external_type_specification]
#[verifier::external_body]
pub struct ExDynamicImage(image::DynamicImage);

/// The image format that the extension of `path` stands for, if any.
pub uninterp spec fn format_of_path(path: Seq<char>) -> Option<image::ImageFormat>;

/// The image that `bytes` encode in `format`, if they encode one.
pub uninterp spec fn decoded_image(bytes: Seq<u8>, format: image::ImageFormat) -> Option<
    image::DynamicImage,
>;

/// The gradient hash of `image` at `hash_size` by `hash_size` bits.
pub uninterp spec fn gradient_hash(image: image::DynamicImage, hash_size: u32) -> Seq<u8>;

/// The number of bytes of a fingerprint of `hash_size` by `hash_size` bits.
pub open spec fn fingerprint_len(hash_size: u32) -> nat {
    ((hash_size as nat * hash_size as nat + 7) / 8) as nat
}

/// Calls `image::ImageFormat::from_path`, which looks at nothing but the
/// extension of `path`. Its result is taken to depend on the text of `path`
/// alone; an extension that stands for no format gives `None`.
#[verifier::external_body]
fn image_format(path: &str) -> (r: Option<image::ImageFormat>)
    ensures
        r == format_of_path(path@),
{
    image::ImageFormat::from_path(path).ok()
}

/// Calls `image::load_from_memory_with_format`. Its result is taken to depend
/// on `bytes` and `format` alone; bytes that do not decode give `None`.
#[verifier::external_body]
fn decode(bytes: &[u8], format: image::ImageFormat) -> (r: Option<image::DynamicImage>)
    ensures
        r == decoded_image(bytes@, format),
{
    image::load_from_memory_with_format(bytes, format).ok()
}

/// Calls `image_hasher::Hasher::hash_image` on a hasher that
/// `image_hasher::HasherConfig` builds with its defaults and a hash size of
/// `hash_size` by `hash_size`. The hash is taken to depend on the image and on
/// `hash_size` alone, and it holds `hash_size * hash_size` bits, eight to the
/// byte. The hasher cannot be built when the number of bits overflows a `u32`.
#[verifier::external_body]
fn hash_image(image: &image::DynamicImage, hash_size: u32) -> (r: Vec<u8>)
    requires
        1 <= hash_size <= MAX_HASH_SIZE,
    ensures
        r@ == gradient_hash(*image, hash_size),
        r@.len() == fingerprint_len(hash_size),
{
    let hasher = image_hasher::HasherConfig::new().hash_size(hash_size, hash_size).to_hasher();
    hasher.hash_image(image).as_bytes().to_vec()
}

/// The fingerprint of the file at `path` that holds `bytes`: that of the image
/// which the bytes encode in the format that the path's extension names. A
/// file without such an extension, or whose bytes do not decode, has none.
pub open spec fn file_fingerprint(path: Seq<char>, bytes: Seq<u8>, hash_size: u32) -> Option<
    Seq<u8>,
> {
    match format_of_path(path) {
        Some(format) => match decoded_image(bytes, format) {
            Some(image) => Some(gradient_hash(image, hash_size)),
            None => None,
        },
        None => None,
    }
}

/// Every fingerprint of an accepted resolution is short enough to be held.
pub proof fn lemma_fingerprint_len_bound(hash_size: u32)
    requires
        hash_size <= MAX_HASH_SIZE,
    ensures
        fingerprint_len(hash_size) <= MAX_FINGERPRINT_BYTES,
{
    assert(hash_size as nat * hash_size as nat <= 65_535 * 65_535) by (nonlinear_arith)
        requires
            hash_size <= 65_535,
    ;
}

/// Extracts the fingerprint of the file at `path` that holds `bytes`, at a
/// resolution of `hash_size` by `hash_size` bits. A file that is no image gives
/// `None`.
pub fn fingerprint_file(path: &str, bytes: &[u8], hash_size: u32) -> (r: Option<Fingerprint>)
    requires
        1 <= hash_size <= MAX_HASH_SIZE,
    ensures
        match file_fingerprint(path@, bytes@, hash_size) {
            Some(bits) => r is Some && r->0@ == bits && bits.len() == fingerprint_len(hash_size),
            None => r is None,
        },
{
    match image_format(path) {
        None => None,
        Some(format) => match decode(bytes, format) {
            None => None,
            Some(image) => {
                let bits = hash_image(&image, hash_size);
                proof {
                    lemma_fingerprint_len_bound(hash_size);
                }
                Fingerprint::from_bytes(bits)
            },
        },
    }
}

} // verus!
