use smart_display::{to, CacheError, ImageBuffer};

fn png_bytes(width: u32, height: u32, rgba: [u8; 4]) -> Vec<u8> {
    let img = image::RgbaImage::from_pixel(width, height, image::Rgba(rgba));
    let mut buf = std::io::Cursor::new(Vec::new());
    image::DynamicImage::ImageRgba8(img)
        .write_to(&mut buf, image::ImageFormat::Png)
        .expect("png encode");
    buf.into_inner()
}

#[test]
fn mean_color_exact() {
    // two pure-red pixels and two pure-blue pixels: mean is (127, 0, 127)
    let pix = vec![
        255u8, 0, 0, 255, 255, 0, 0, 255, 0, 0, 255, 255, 0, 0, 255, 255,
    ];
    assert_eq!(smart_display::image_buffer::mean_color(&pix), (127, 0, 127));
}

#[test]
fn mean_color_empty_is_black() {
    let pix: Vec<u8> = Vec::new();
    assert_eq!(smart_display::image_buffer::mean_color(&pix), (0, 0, 0));
}

#[test]
fn red_png_yields_red_entry() {
    // a 64x64 solid red PNG declared image/png transcodes to an entry whose
    // representative colour is pure red
    let body = png_bytes(64, 64, [255, 0, 0, 255]);
    let mut cache = ImageBuffer::new();
    let r = cache.store_fetched(
        "http://x/img.png".to_string(),
        &body,
        &b"image/png".to_vec(),
        Some((64, 64)),
    );
    assert!(r.is_ok());
    let entry = cache.get(&"http://x/img.png".to_string()).expect("cached");
    assert_eq!(entry.color, (255, 0, 0));
    assert!(!entry.bytes.is_empty());
}

#[test]
fn second_lookup_is_byte_identical() {
    let body = png_bytes(16, 16, [10, 200, 30, 255]);
    let mut cache = ImageBuffer::new();
    let url = "http://x/p.png".to_string();
    assert!(cache.get(&url).is_none());
    cache
        .store_fetched(url.clone(), &body, &b"image/png".to_vec(), Some((8, 8)))
        .expect("first fetch admits an entry");
    let first = cache.get(&url).expect("hit").bytes.clone();
    let second = cache.get(&url).expect("hit").bytes.clone();
    assert_eq!(first, second);
}

#[test]
fn html_content_type_is_rejected_without_entry() {
    let body = png_bytes(8, 8, [1, 2, 3, 255]);
    let mut cache = ImageBuffer::new();
    let r = cache.store_fetched(
        "http://x/page".to_string(),
        &body,
        &b"text/html".to_vec(),
        Some((8, 8)),
    );
    assert_eq!(r, Err(CacheError::ContentType));
    assert!(cache.get(&"http://x/page".to_string()).is_none());
}

#[test]
fn undecodable_body_is_rejected_without_entry() {
    let mut cache = ImageBuffer::new();
    let r = cache.store_fetched(
        "http://x/broken".to_string(),
        &b"these are not image bytes".to_vec(),
        &b"image/png".to_vec(),
        Some((8, 8)),
    );
    assert_eq!(r, Err(CacheError::Decode));
    assert!(cache.get(&"http://x/broken".to_string()).is_none());
}

#[test]
fn resize_applies_target_size() {
    // a large source still produces an entry (resized down before encoding)
    let body = png_bytes(128, 96, [0, 255, 0, 255]);
    let mut cache = ImageBuffer::new();
    cache
        .store_fetched("u".to_string(), &body, &b"image/webp, sort of".to_vec(), Some((32, 16)))
        .expect("image/* prefix is all that is checked");
    let entry = cache.get(&"u".to_string()).expect("cached");
    assert_eq!(entry.color, (0, 255, 0));
}

#[test]
fn without_target_size_image_passes_through() {
    let body = png_bytes(10, 10, [0, 0, 255, 255]);
    let mut cache = ImageBuffer::new();
    cache
        .store_fetched("u".to_string(), &body, &b"image/png".to_vec(), None)
        .expect("no configured size still transcodes");
    let entry = cache.get(&"u".to_string()).expect("cached");
    assert_eq!(entry.color, (0, 0, 255));
}

#[test]
fn error_messages() {
    assert_eq!(CacheError::Fetch.message(), "failed to get http response");
    assert_eq!(
        CacheError::ContentType.message(),
        "http content type must be image/*"
    );
    assert_eq!(
        CacheError::Decode.message(),
        "failed to load image from http response body"
    );
    assert_eq!(
        CacheError::Encode.message(),
        "failed to encode into webp from image"
    );
}

#[test]
fn rejection_carries_message() {
    let r = to(CacheError::ContentType.message());
    assert_eq!(r.message, "http content type must be image/*");
}
