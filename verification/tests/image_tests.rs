use couscous_crawler::image_processor::content_type_is_image;
use couscous_crawler::image_processor::is_image_path;
use couscous_crawler::image_processor::src_is_usable;
use couscous_crawler::image_processor::ImageProcessor;
use url::Url;

fn png_bytes(width: u32, height: u32) -> Vec<u8> {
    let mut b = vec![0x89, 0x50, 0x4E, 0x47, 0x0D, 0x0A, 0x1A, 0x0A];
    // IHDR chunk length and name.
    b.extend_from_slice(&[0, 0, 0, 13]);
    b.extend_from_slice(b"IHDR");
    b.extend_from_slice(&width.to_be_bytes());
    b.extend_from_slice(&height.to_be_bytes());
    b.extend_from_slice(&[8, 6, 0, 0, 0]);
    b
}

fn gif_bytes(width: u16, height: u16) -> Vec<u8> {
    let mut b = b"GIF89a".to_vec();
    b.extend_from_slice(&width.to_le_bytes());
    b.extend_from_slice(&height.to_le_bytes());
    b.extend_from_slice(&[0; 20]);
    b
}

fn jpeg_bytes(width: u16, height: u16) -> Vec<u8> {
    let mut b = vec![0xFF, 0xD8, 0xFF, 0xE0];
    // An APP0 segment of length 8 (two length bytes plus six payload
    // bytes), then a baseline start-of-frame segment.
    b.extend_from_slice(&[0x00, 0x08, 1, 2, 3, 4, 5, 6]);
    b.extend_from_slice(&[0xFF, 0xC0, 0x00, 0x11, 0x08]);
    b.extend_from_slice(&height.to_be_bytes());
    b.extend_from_slice(&width.to_be_bytes());
    b.extend_from_slice(&[0; 12]);
    b
}

fn webp_bytes(width: u16, height: u16) -> Vec<u8> {
    let mut b = b"RIFF".to_vec();
    b.extend_from_slice(&[0x24, 0, 0, 0]);
    b.extend_from_slice(b"WEBP");
    b.extend_from_slice(b"VP8 ");
    b.extend_from_slice(&[0x18, 0, 0, 0]);
    b.extend_from_slice(&[0x30, 0x01, 0x00, 0x9D, 0x01, 0x2A]);
    b.extend_from_slice(&width.to_le_bytes());
    b.extend_from_slice(&height.to_le_bytes());
    b.extend_from_slice(&[0; 4]);
    b
}

#[test]
fn png_dimensions_from_header() {
    assert_eq!(
        ImageProcessor::get_image_dimensions(&png_bytes(640, 480)),
        Some((640, 480))
    );
}

#[test]
fn gif_dimensions_from_header() {
    assert_eq!(
        ImageProcessor::get_image_dimensions(&gif_bytes(320, 200)),
        Some((320, 200))
    );
}

#[test]
fn jpeg_dimensions_from_start_of_frame() {
    assert_eq!(
        ImageProcessor::get_image_dimensions(&jpeg_bytes(1024, 768)),
        Some((1024, 768))
    );
}

#[test]
fn webp_dimensions_from_vp8_frame() {
    assert_eq!(
        ImageProcessor::get_image_dimensions(&webp_bytes(304, 176)),
        Some((304, 176))
    );
}

#[test]
fn unknown_or_short_bytes_have_no_dimensions() {
    assert_eq!(ImageProcessor::get_image_dimensions(&[0u8; 10]), None);
    assert_eq!(ImageProcessor::get_image_dimensions(&[0u8; 64]), None);
    let mut truncated_jpeg = vec![0xFF, 0xD8, 0xFF, 0xE0];
    truncated_jpeg.extend_from_slice(&[0u8; 24]);
    assert_eq!(ImageProcessor::get_image_dimensions(&truncated_jpeg), None);
}

#[test]
fn size_check_against_minimums() {
    let proc = ImageProcessor::new("faces", "face-detection/model.pt", 128, 128);
    assert!(proc.check_image_size(&png_bytes(200, 200)));
    assert!(proc.check_image_size(&png_bytes(128, 128)));
    assert!(!proc.check_image_size(&png_bytes(100, 200)));
    assert!(!proc.check_image_size(&png_bytes(200, 100)));
    // Bytes without a readable header are let through.
    assert!(proc.check_image_size(&[0u8; 40]));
}

#[test]
fn stored_extension_from_path() {
    assert_eq!(ImageProcessor::image_extension("/a/photo.PNG"), "png");
    assert_eq!(ImageProcessor::image_extension("/a/b.jpeg"), "jpeg");
    assert_eq!(ImageProcessor::image_extension("/a/pic.webp"), "webp");
    assert_eq!(ImageProcessor::image_extension("/a/no_extension"), "jpg");
    assert_eq!(ImageProcessor::image_extension("/a/strange.bmp"), "jpg");
    assert_eq!(ImageProcessor::image_extension(""), "jpg");
}

#[test]
fn image_url_strings_filter_and_dedup() {
    let html = r#"
        <img src="/pics/one.jpg">
        <img src="/pics/one.jpg">
        <img src="data:image/png;base64,AAAA">
        <img src="/docs/report.pdf">
        <img src="/photo/profile">
    "#;
    let images = ImageProcessor::extract_image_url_strings(html, "https://a.test/");
    assert_eq!(
        images,
        vec!["https://a.test/pics/one.jpg".to_string(), "https://a.test/photo/profile".to_string()]
    );
}

#[test]
fn image_content_type_gate() {
    assert!(content_type_is_image("image/png"));
    assert!(content_type_is_image("image/jpeg; charset=binary"));
    assert!(!content_type_is_image("text/html"));
}

#[test]
fn image_url_extraction_filters_and_dedups() {
    let html = r#"
        <img src="/pics/one.jpg">
        <img src="/pics/one.jpg">
        <img src="data:image/png;base64,AAAA">
        <img src="/docs/report.pdf">
        <img src="/photo/profile">
    "#;
    let base = Url::parse("https://a.test/").unwrap();
    let images = ImageProcessor::extract_image_urls(html, base.as_str());
    let strs: Vec<&str> = images.iter().map(|u| u.as_str()).collect();
    assert_eq!(
        strs,
        vec!["https://a.test/pics/one.jpg", "https://a.test/photo/profile"]
    );
}

#[test]
fn src_and_path_filters() {
    assert!(!src_is_usable("data:image/png;base64,AAAA"));
    assert!(!src_is_usable(""));
    assert!(src_is_usable("/logo.png"));
    assert!(is_image_path("/a/B.JPG"));
    assert!(is_image_path("/gallery/images/42"));
    assert!(!is_image_path("/about.html"));
}
