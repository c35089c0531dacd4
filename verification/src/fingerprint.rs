use vstd::prelude::*;
use crate::entry::HASH_SIZE_BYTES;

verus! {

/// A decoded image, as the `image` crate holds it.
#[verifier::external_type_specification]
#[verifier::external_body]
pub struct ExDynamicImage(image::DynamicImage);

/// The ways in which the `image` crate fails, one for each kind of its error.
#[derive(Clone, Copy, Debug, PartialEq, Eq, Structural)]
pub enum ImageFailure {
    /// The bytes do not conform to the format.
    Decoding,
    /// The image cannot be written in the format.
    Encoding,
    /// An argument of an operation on the image was out of place.
    Parameter,
    /// The image needs more memory than the limits allow.
    Limits,
    /// The format is unknown or not supported.
    Unsupported,
    /// The bytes could not be read to their end.
    Io,
}

/// The 64-bit XXH3 hash of a sequence of bytes, with the default secret and
/// seed 0.
pub uninterp spec fn xxh3_64_spec(bytes: Seq<u8>) -> u64;

/// How `image::load_from_memory` fails on a sequence of bytes: `None` where it
/// decodes them, else the kind of its error.
pub uninterp spec fn load_failure_spec(bytes: Seq<u8>) -> Option<ImageFailure>;

/// The text that `image_hasher::ImageHash::to_base64` gives for a hash of
/// these bytes: their Base64 form in the standard alphabet, without padding.
pub uninterp spec fn base64_of_hash_spec(hash: Seq<u8>) -> Seq<char>;

/// The hash that `image_hasher::ImageHash::from_base64` reads from a text,
/// with eight bytes as container: `None` where the text is no Base64 or
/// holds more than eight bytes.
pub uninterp spec fn hash_of_base64_spec(text: Seq<char>) -> Option<[u8; HASH_SIZE_BYTES]>;

/// Calls `xxhash_rust::xxh3::xxh3_64`. The hash is a function of the bytes
/// alone.
#[verifier::external_body]
pub(crate) fn xxh3_64(bytes: &[u8]) -> (h: u64)
    ensures
        h == xxh3_64_spec(bytes@),
{
    xxhash_rust::xxh3::xxh3_64(bytes)
}

/// Calls `image::load_from_memory`, which guesses the format from the first
/// bytes and decodes with the default limits, and names the variant of the
/// error it returns. Whether it decodes, and how it fails, is a function of
/// the bytes alone; nothing is claimed of the image.
#[verifier::external_body]
pub(crate) fn load_from_memory(bytes: &[u8]) -> (r: Result<image::DynamicImage, ImageFailure>)
    ensures
        r is Ok <==> load_failure_spec(bytes@) is None,
        r matches Err(k) ==> load_failure_spec(bytes@) == Some(k),
{
    match image::load_from_memory(bytes) {
        Ok(img) => Ok(img),
        Err(image::ImageError::Decoding(_)) => Err(ImageFailure::Decoding),
        Err(image::ImageError::Encoding(_)) => Err(ImageFailure::Encoding),
        Err(image::ImageError::Parameter(_)) => Err(ImageFailure::Parameter),
        Err(image::ImageError::Limits(_)) => Err(ImageFailure::Limits),
        Err(image::ImageError::Unsupported(_)) => Err(ImageFailure::Unsupported),
        Err(image::ImageError::IoError(_)) => Err(ImageFailure::Io),
    }
}

/// Calls `image_hasher::Hasher::hash_image` with the default configuration
/// (gradient hash of 8 x 8 bits) and an array of eight bytes as container.
/// The hash goes through a floating-point resize, so nothing is claimed of
/// its value.
#[verifier::external_body]
pub(crate) fn hash_image(img: &image::DynamicImage) -> (h: [u8; HASH_SIZE_BYTES]) {
    let config = image_hasher::HasherConfig::with_bytes_type::<[u8; HASH_SIZE_BYTES]>();
    let mut h = [0u8; HASH_SIZE_BYTES];
    h.copy_from_slice(config.to_hasher().hash_image(img).as_bytes());
    h
}

/// Calls `image_hasher::ImageHash::to_base64` on the hash with these bytes.
/// The text is a function of the bytes, and `from_base64` reads the hash
/// back from it: it decodes the eight bytes that were encoded. `from_bytes`
/// takes any eight bytes for this container, so its error never comes.
#[verifier::external_body]
pub(crate) fn hash_to_base64(hash: &[u8; HASH_SIZE_BYTES]) -> (text: String)
    ensures
        text@ == base64_of_hash_spec(hash@),
        hash_of_base64_spec(text@) == Some(*hash),
{
    match image_hasher::ImageHash::<[u8; HASH_SIZE_BYTES]>::from_bytes(hash) {
        Ok(h) => h.to_base64(),
        Err(_) => String::new(),
    }
}

/// Calls `image_hasher::ImageHash::from_base64` with eight bytes as
/// container. What it reads is a function of the text.
#[verifier::external_body]
pub(crate) fn hash_from_base64(text: &str) -> (hash: Option<[u8; HASH_SIZE_BYTES]>)
    ensures
        hash == hash_of_base64_spec(text@),
{
    match image_hasher::ImageHash::<[u8; HASH_SIZE_BYTES]>::from_base64(text) {
        Ok(h) => {
            let mut out = [0u8; HASH_SIZE_BYTES];
            out.copy_from_slice(h.as_bytes());
            Some(out)
        },
        Err(_) => None,
    }
}

/// What the decoder made of a file's bytes: the perceptual hash of the image
/// that it decoded, or the way in which it failed.
#[derive(Clone, Copy, Debug, PartialEq, Eq)]
pub enum ImageProbe {
    Decoded([u8; HASH_SIZE_BYTES]),
    Failed(ImageFailure),
}

/// The two fingerprints of a file's bytes.
#[derive(Clone, Copy, Debug, PartialEq, Eq)]
pub struct Fingerprint {
    pub content_hash: u64,
    pub image: ImageProbe,
}

/// Whether `probe` is an answer that the decoder can give for `bytes`: a hash
/// where it decodes them, else the failure that it reports.
pub open spec fn probe_agrees(bytes: Seq<u8>, probe: ImageProbe) -> bool {
    match load_failure_spec(bytes) {
        None => probe is Decoded,
        Some(k) => probe == ImageProbe::Failed(k),
    }
}

/// Whether `fp` is a fingerprint of `bytes`: their XXH3 hash, and an answer
/// of the decoder for them.
pub open spec fn is_fingerprint_of(bytes: Seq<u8>, fp: Fingerprint) -> bool {
    fp.content_hash == xxh3_64_spec(bytes) && probe_agrees(bytes, fp.image)
}

/// Hashes the bytes of a file, and decodes them as an image to hash what
/// they show. Whether the file decodes is a function of its bytes; which
/// perceptual hash the image gets is left to the hasher.
pub fn fingerprint(bytes: &[u8]) -> (fp: Fingerprint)
    ensures
        is_fingerprint_of(bytes@, fp),
{
    let content_hash = xxh3_64(bytes);
    let image = match load_from_memory(bytes) {
        Ok(img) => ImageProbe::Decoded(hash_image(&img)),
        Err(k) => ImageProbe::Failed(k),
    };
    Fingerprint { content_hash, image }
}

} // verus!
