//! On-demand image fetch cache: transcoded image payloads keyed by source
//! URL, together with the transcoding pipeline that turns a fetched response
//! body into a cache entry (content-type validation, decode, resize,
//! mean-colour metadata, re-encode).
//!
//! The network fetch itself is the caller's: the cache decides whether a
//! fetch is needed (`get`), and `store_fetched` turns the fetched response into
//! one immutable entry the URL will ever have.

use vstd::prelude::*;

verus! {

use vstd::arithmetic::div_mod::lemma_div_is_ordered;
use vstd::arithmetic::div_mod::lemma_div_multiples_vanish;

/// Failures of the image fetch cache, one per pipeline stage.
#[derive(Debug, Clone, Copy, PartialEq, Eq, Structural)]
pub enum CacheError {
    /// Transport failure or non-success status of the HTTP fetch.
    Fetch,
    /// The response did not declare an `image/*` content type.
    ContentType,
    /// The response body could not be decoded as an image.
    Decode,
    /// The transcoded image could not be re-encoded.
    Encode,
}

impl CacheError {
    /// The message surfaced to the caller whose fetch failed.
    pub open spec fn spec_message(self) -> Seq<char> {
        match self {
            CacheError::Fetch => "failed to get http response"@,
            CacheError::ContentType => "http content type must be image/*"@,
            CacheError::Decode => "failed to load image from http response body"@,
            CacheError::Encode => "failed to encode into webp from image"@,
        }
    }

    /// Render the message of this failure.
    pub fn message(&self) -> (r: String)
        ensures
            r@ == self.spec_message(),
    {
        match self {
            CacheError::Fetch => "failed to get http response".to_owned(),
            CacheError::ContentType => "http content type must be image/*".to_owned(),
            CacheError::Decode => "failed to load image from http response body".to_owned(),
            CacheError::Encode => "failed to encode into webp from image".to_owned(),
        }
    }
}

/// A cached transcoded image: the encoded payload and the mean RGB colour
/// of the decoded pixels. Immutable once created.
pub struct CacheEntry {
    pub bytes: Vec<u8>,
    pub color: (u8, u8, u8),
}

/// The image fetch cache: one entry per source URL, created on the first
/// successful fetch, never refreshed and never evicted.
pub struct ImageBuffer {
    pub entries: Vec<(String, CacheEntry)>,
}

/// The cache keys hold no duplicates: at most one entry per source URL.
pub open spec fn keys_distinct(entries: Seq<(String, CacheEntry)>) -> bool {
    forall|i: int, j: int| 0 <= i < j < entries.len() ==> entries[i].0@ != entries[j].0@
}

/// Whether some entry of `entries` is keyed by `u`.
pub open spec fn has_key(entries: Seq<(String, CacheEntry)>, u: Seq<char>) -> bool {
    exists|i: int| 0 <= i < entries.len() && entries[i].0@ == u
}

/// The entry of `entries` keyed by `u` (meaningful under `has_key` and
/// distinct keys).
pub open spec fn entry_of(entries: Seq<(String, CacheEntry)>, u: Seq<char>) -> CacheEntry {
    entries[choose|i: int| 0 <= i < entries.len() && entries[i].0@ == u].1
}

impl ImageBuffer {
    /// At most one entry per source URL.
    pub open spec fn wf(self) -> bool {
        keys_distinct(self.entries@)
    }

    /// Whether the cache holds an entry for `u`.
    pub open spec fn contains_key(self, u: Seq<char>) -> bool {
        has_key(self.entries@, u)
    }

    /// The empty cache.
    pub fn new() -> (r: ImageBuffer)
        ensures
            r.entries@.len() == 0,
            r.wf(),
    {
        ImageBuffer { entries: Vec::new() }
    }

    /// Look the URL up; a hit serves the stored entry and means no fetch is
    /// needed, a miss means the caller must fetch and store the response.
    pub fn get(&self, url: &String) -> (r: Option<&CacheEntry>)
        requires
            self.wf(),
        ensures
            r is Some <==> self.contains_key(url@),
            r matches Some(e) ==> *e == entry_of(self.entries@, url@),
    {
        let mut k: usize = 0;
        while k < self.entries.len()
            invariant
                k <= self.entries@.len(),
                forall|i: int| 0 <= i < k ==> self.entries@[i].0@ != url@,
                self.wf(),
            decreases self.entries@.len() - k,
        {
            if self.entries[k].0 == *url {
                proof {
                    let i = choose|i: int|
                        0 <= i < self.entries@.len() && self.entries@[i].0@ == url@;
                    assert(i == k);
                }
                return Some(&self.entries[k].1);
            }
            k += 1;
        }
        None
    }

    /// Store the one entry this URL will ever have; the URL must still be
    /// a miss, so an existing entry is never refreshed.
    pub fn insert(&mut self, url: String, entry: CacheEntry)
        requires
            old(self).wf(),
            !old(self).contains_key(url@),
        ensures
            final(self).wf(),
            final(self).entries@ == old(self).entries@.push((url, entry)),
            final(self).contains_key(url@),
            entry_of(final(self).entries@, url@) == entry,
    {
        let ghost pre = self.entries@;
        self.entries.push((url, entry));
        proof {
            assert(self.entries@[pre.len() as int].0@ == url@);
            assert(forall|i: int| 0 <= i < pre.len() ==> self.entries@[i] == pre[i]);
            let i = choose|i: int| 0 <= i < self.entries@.len() && self.entries@[i].0@ == url@;
            assert(i == pre.len());
        }
    }
}

/// A fetch for a URL that the cache already holds is never repeated: right
/// after an entry is stored for a URL, that URL is a hit, and the hit
/// serves exactly the stored entry — so a second request for the same URL
/// performs no further fetch and returns byte-identical payload.
pub proof fn lemma_cache_hit_after_insert(
    entries: Seq<(String, CacheEntry)>,
    url: String,
    entry: CacheEntry,
)
    requires
        keys_distinct(entries),
        !has_key(entries, url@),
    ensures
        keys_distinct(entries.push((url, entry))),
        has_key(entries.push((url, entry)), url@),
        entry_of(entries.push((url, entry)), url@) == entry,
{
    let post = entries.push((url, entry));
    assert(post[entries.len() as int].0@ == url@);
    assert(forall|i: int| 0 <= i < entries.len() ==> post[i] == entries[i]);
    let i = choose|i: int| 0 <= i < post.len() && post[i].0@ == url@;
    assert(i == entries.len());
}

/// Whether a declared content type names an image: it begins with the six
/// bytes of `image/`.
pub open spec fn is_image_content_type(ct: Seq<u8>) -> bool {
    &&& ct.len() >= 6
    &&& ct[0] == 105u8  // 'i'
    &&& ct[1] == 109u8  // 'm'
    &&& ct[2] == 97u8  // 'a'
    &&& ct[3] == 103u8  // 'g'
    &&& ct[4] == 101u8  // 'e'
    &&& ct[5] == 47u8  // '/'
}

/// Validate the declared content type of a fetched response; the bytes are
/// never sniffed, only the declaration counts.
pub fn content_type_is_image(ct: &Vec<u8>) -> (r: bool)
    ensures
        r == is_image_content_type(ct@),
{
    ct.len() >= 6 && ct[0] == 105 && ct[1] == 109 && ct[2] == 97 && ct[3] == 103 && ct[4] == 101
        && ct[5] == 47
}

/// Sum of one colour channel (`c` of 0, 1, 2, 3) over the first `n` RGBA
/// pixels of `pix`.
pub open spec fn channel_sum(pix: Seq<u8>, c: int, n: int) -> int
    decreases n,
{
    if n <= 0 {
        0
    } else {
        channel_sum(pix, c, n - 1) + pix[4 * (n - 1) + c]
    }
}

/// The mean of one colour channel over all RGBA pixels of `pix`, truncated
/// to an integer; 0 for an image without pixels.
pub open spec fn spec_mean(pix: Seq<u8>, c: int) -> int {
    let n = pix.len() as int / 4;
    if n == 0 {
        0
    } else {
        channel_sum(pix, c, n) / n
    }
}

/// A channel sum over `n` pixels is between 0 and 255 per pixel.
proof fn lemma_channel_sum_bound(pix: Seq<u8>, c: int, n: int)
    requires
        0 <= c < 4,
        0 <= n,
        4 * n <= pix.len(),
    ensures
        0 <= channel_sum(pix, c, n) <= 255 * n,
    decreases n,
{
    if n > 0 {
        lemma_channel_sum_bound(pix, c, n - 1);
        assert(channel_sum(pix, c, n) == channel_sum(pix, c, n - 1) + pix[4 * (n - 1) + c]);
        assert(pix[4 * (n - 1) + c] <= 255);
    }
}

/// The arithmetic mean of each of the R, G, B channels over the decoded
/// RGBA pixel data, truncated to an 8-bit integer per channel.
pub fn mean_color(pix: &Vec<u8>) -> (r: (u8, u8, u8))
    requires
        pix@.len() % 4 == 0,
    ensures
        r.0 == spec_mean(pix@, 0),
        r.1 == spec_mean(pix@, 1),
        r.2 == spec_mean(pix@, 2),
{
    let m: usize = pix.len();
    let n: usize = m / 4;
    if n == 0 {
        return (0, 0, 0);
    }
    let mut rs: u128 = 0;
    let mut gs: u128 = 0;
    let mut bs: u128 = 0;
    let mut i: usize = 0;
    while i < n
        invariant
            i <= n,
            m == pix@.len(),
            n == pix@.len() as int / 4,
            pix@.len() % 4 == 0,
            4 * n == m,
            rs == channel_sum(pix@, 0, i as int),
            gs == channel_sum(pix@, 1, i as int),
            bs == channel_sum(pix@, 2, i as int),
            rs <= 255 * i,
            gs <= 255 * i,
            bs <= 255 * i,
        decreases n - i,
    {
        assert(4 * i + 3 < pix@.len());
        rs = rs + pix[4 * i] as u128;
        gs = gs + pix[4 * i + 1] as u128;
        bs = bs + pix[4 * i + 2] as u128;
        i += 1;
    }
    proof {
        lemma_channel_sum_bound(pix@, 0, n as int);
        lemma_channel_sum_bound(pix@, 1, n as int);
        lemma_channel_sum_bound(pix@, 2, n as int);
        lemma_div_is_ordered(rs as int, 255 * (n as int), n as int);
        lemma_div_is_ordered(gs as int, 255 * (n as int), n as int);
        lemma_div_is_ordered(bs as int, 255 * (n as int), n as int);
        lemma_div_multiples_vanish(255, n as int);
    }
    ((rs / n as u128) as u8, (gs / n as u128) as u8, (bs / n as u128) as u8)
}

/// Whether `image::load_from_memory` decodes these bytes; the decoder is a
/// function of the bytes alone.
pub uninterp spec fn image_decodes(bytes: Seq<u8>) -> bool;

/// The image that `image::load_from_memory` decodes these bytes to
/// (meaningful when `image_decodes` holds); a function of the bytes alone.
pub uninterp spec fn decoded_image(bytes: Seq<u8>) -> image::DynamicImage;

/// The image that `resize_to_fill` with the Catmull-Rom filter scales and
/// crops this image to; a function of the image and the bounds alone.
pub uninterp spec fn resized_image(img: image::DynamicImage, width: u32, height: u32) -> image::DynamicImage;

/// The RGBA pixel bytes that `to_rgba8` reads out of this image; a
/// function of the image alone.
pub uninterp spec fn rgba_of(img: image::DynamicImage) -> Seq<u8>;

/// What `write_to` with the WebP format encodes this image to, if it
/// encodes at all; a function of the image alone.
pub uninterp spec fn webp_result(img: image::DynamicImage) -> Option<Seq<u8>>;

/// The image the pipeline encodes: the decoded body, scaled and cropped to
/// the target bounds where bounds are configured.
pub open spec fn staged_image(bytes: Seq<u8>, target: Option<(u32, u32)>) -> image::DynamicImage {
    match target {
        Some(t) => resized_image(decoded_image(bytes), t.0, t.1),
        None => decoded_image(bytes),
    }
}

/// Declares image::DynamicImage, the decoded image that flows between the
/// pipeline's calls into the image crate; its contents stay opaque here.
#[verifier::external_type_specification]
#[verifier::external_body]
pub struct ExDynamicImage(image::DynamicImage);

/// Relies on image::load_from_memory: decodes an image from bytes, guessing
/// the format from the bytes themselves; the outcome and the decoded image
/// depend on the bytes alone.
#[verifier::external_body]
fn decode_image(bytes: &[u8]) -> (r: Option<image::DynamicImage>)
    ensures
        (r is Some) == image_decodes(bytes@),
        r matches Some(img) ==> img == decoded_image(bytes@),
{
    image::load_from_memory(bytes).ok()
}

/// Relies on image::DynamicImage::resize_to_fill: scales preserving aspect
/// ratio, then crops to exactly the given bounds, with the
/// quality-preserving Catmull-Rom filter; a function of its arguments.
#[verifier::external_body]
fn resize_image(img: &image::DynamicImage, width: u32, height: u32) -> (r: image::DynamicImage)
    requires
        1 <= width,
        1 <= height,
    ensures
        r == resized_image(*img, width, height),
{
    img.resize_to_fill(width, height, image::imageops::FilterType::CatmullRom)
}

/// Relies on image::DynamicImage::to_rgba8: yields the image's pixels as
/// RGBA, four bytes per pixel, so the raw container's length is a multiple
/// of four; a function of the image.
#[verifier::external_body]
fn rgba_pixels(img: &image::DynamicImage) -> (r: Vec<u8>)
    ensures
        r@ == rgba_of(*img),
        r@.len() % 4 == 0,
{
    img.to_rgba8().into_raw()
}

/// Relies on image::DynamicImage::write_to with the WebP format: encodes
/// the image into the returned buffer, converting the colour type as
/// needed, or fails; the outcome and the bytes depend on the image alone.
#[verifier::external_body]
fn encode_webp(img: &image::DynamicImage) -> (r: Option<Vec<u8>>)
    ensures
        (r is Some) == (webp_result(*img) is Some),
        r matches Some(b) ==> Some(b@) == webp_result(*img),
{
    let mut buf = std::io::Cursor::new(vec![]);
    match img.write_to(&mut buf, image::ImageFormat::WebP) {
        Ok(()) => Some(buf.into_inner()),
        Err(_) => None,
    }
}

/// Turn a fetched response into a cache entry: validate the declared
/// content type, decode the body, resize to the target size where one is
/// configured (passing through unchanged otherwise), take the mean colour
/// of the decoded pixels, and re-encode.
///
/// Each failure is tied exactly to its stage: `ContentType` when the
/// declared type is not `image/*`, `Decode` when the declaration passes
/// but the body does not decode, `Encode` when only the re-encoding
/// failed; success is owed whenever all three stages go through, and the
/// entry then holds exactly the encoder's bytes and the mean colour of the
/// staged image's pixels. The fetch itself happened at the caller, so
/// `Fetch` never arises here.
pub fn transcode(body: &Vec<u8>, content_type: &Vec<u8>, target: Option<(u32, u32)>) -> (r: Result<
    CacheEntry,
    CacheError,
>)
    requires
        target matches Some(t) ==> 1 <= t.0 && 1 <= t.1,
    ensures
        r == Err::<CacheEntry, CacheError>(CacheError::ContentType) <==> !is_image_content_type(
            content_type@,
        ),
        r == Err::<CacheEntry, CacheError>(CacheError::Decode) <==> is_image_content_type(
            content_type@,
        ) && !image_decodes(body@),
        r == Err::<CacheEntry, CacheError>(CacheError::Encode) <==> is_image_content_type(
            content_type@,
        ) && image_decodes(body@) && webp_result(staged_image(body@, target)) is None,
        (r is Ok) == (is_image_content_type(content_type@) && image_decodes(body@) && webp_result(
            staged_image(body@, target),
        ) is Some),
        r matches Ok(e) ==> Some(e.bytes@) == webp_result(staged_image(body@, target)),
        r matches Ok(e) ==> e.color.0 == spec_mean(rgba_of(staged_image(body@, target)), 0)
            && e.color.1 == spec_mean(rgba_of(staged_image(body@, target)), 1) && e.color.2
            == spec_mean(rgba_of(staged_image(body@, target)), 2),
{
    if !content_type_is_image(content_type) {
        return Err(CacheError::ContentType);
    }
    let decoded = match decode_image(body.as_slice()) {
        Some(img) => img,
        None => {
            return Err(CacheError::Decode);
        },
    };
    let sized = match target {
        Some((width, height)) => resize_image(&decoded, width, height),
        None => decoded,
    };
    let pixels = rgba_pixels(&sized);
    let color = mean_color(&pixels);
    match encode_webp(&sized) {
        Some(bytes) => Ok(CacheEntry { bytes, color }),
        None => Err(CacheError::Encode),
    }
}

impl ImageBuffer {
    /// The miss path of fetchOrGet after the caller fetched the response:
    /// transcode it and store the entry under the URL. On any failure the
    /// cache is left exactly as it was — no entry is created for a URL
    /// whose fetch did not go through.
    pub fn store_fetched(
        &mut self,
        url: String,
        body: &Vec<u8>,
        content_type: &Vec<u8>,
        target: Option<(u32, u32)>,
    ) -> (r: Result<(), CacheError>)
        requires
            old(self).wf(),
            !old(self).contains_key(url@),
            target matches Some(t) ==> 1 <= t.0 && 1 <= t.1,
        ensures
            final(self).wf(),
            r == Err::<(), CacheError>(CacheError::ContentType) <==> !is_image_content_type(
                content_type@,
            ),
            r == Err::<(), CacheError>(CacheError::Decode) <==> is_image_content_type(
                content_type@,
            ) && !image_decodes(body@),
            r == Err::<(), CacheError>(CacheError::Encode) <==> is_image_content_type(
                content_type@,
            ) && image_decodes(body@) && webp_result(staged_image(body@, target)) is None,
            (r is Ok) == (is_image_content_type(content_type@) && image_decodes(body@)
                && webp_result(staged_image(body@, target)) is Some),
            r is Ok ==> exists|entry: CacheEntry|
                final(self).entries@ == old(self).entries@.push((url, entry)) && entry_of(
                    final(self).entries@,
                    url@,
                ) == entry,
            r is Ok ==> final(self).contains_key(url@) && Some(
                entry_of(final(self).entries@, url@).bytes@,
            ) == webp_result(staged_image(body@, target)),
            r is Ok ==> entry_of(final(self).entries@, url@).color.0 == spec_mean(
                rgba_of(staged_image(body@, target)),
                0,
            ) && entry_of(final(self).entries@, url@).color.1 == spec_mean(
                rgba_of(staged_image(body@, target)),
                1,
            ) && entry_of(final(self).entries@, url@).color.2 == spec_mean(
                rgba_of(staged_image(body@, target)),
                2,
            ),
            r is Err ==> *final(self) == *old(self),
    {
        match transcode(body, content_type, target) {
            Ok(entry) => {
                self.insert(url, entry);
                Ok(())
            },
            Err(e) => Err(e),
        }
    }
}

} // verus!
