use base64::Engine as _;
use screenshot::codec::{
    data_url_to_bytes, data_url_to_image, image_to_data_url, image_to_jpeg_data_url, resize_image, rgb_bytes,
    ImageDataError,
};
use screenshot::raster::RgbaImage;

fn sample() -> RgbaImage {
    let mut data = Vec::new();
    for i in 0..(7 * 5) {
        data.extend_from_slice(&[(i * 7) as u8, (i * 13) as u8, 200, (i * 3) as u8]);
    }
    RgbaImage::from_raw(7, 5, data).unwrap()
}

#[test]
fn png_data_url_round_trip() {
    let image = sample();
    let url = image_to_data_url(&image).unwrap();
    assert!(url.starts_with("data:image/png;base64,"));
    let back = data_url_to_image(&url).unwrap();
    assert_eq!(back.dimensions(), (7, 5));
    assert!(back.as_raw() == image.as_raw());
}

#[test]
fn saved_bytes_are_the_png_file() {
    let url = image_to_data_url(&sample()).unwrap();
    let bytes = data_url_to_bytes(&url).unwrap();
    assert_eq!(&bytes[..8], &[137, 80, 78, 71, 13, 10, 26, 10]);
    let payload = url.split_once(',').unwrap().1;
    assert_eq!(base64::engine::general_purpose::STANDARD.encode(&bytes), payload);
}

#[test]
fn data_url_without_comma_is_refused() {
    assert_eq!(data_url_to_bytes("data:image/png;base64"), Err(ImageDataError::MissingPayload));
    assert!(matches!(data_url_to_image("nothing"), Err(ImageDataError::MissingPayload)));
}

#[test]
fn bad_base64_is_refused() {
    assert!(matches!(data_url_to_bytes("data:,@@@"), Err(ImageDataError::Base64(_))));
    assert!(matches!(data_url_to_image("data:,aGVsbG8"), Err(ImageDataError::Base64(_))));
}

#[test]
fn non_image_payload_is_refused() {
    assert_eq!(data_url_to_bytes("data:,aGVsbG8=").unwrap(), b"hello".to_vec());
    assert!(matches!(data_url_to_image("data:,aGVsbG8="), Err(ImageDataError::Decode(_))));
}

#[test]
fn payload_starts_after_the_first_comma() {
    assert_eq!(data_url_to_bytes("a,b,aGk=").map_err(|_| ()), Err(()));
    assert_eq!(data_url_to_bytes(",aGk=").unwrap(), b"hi".to_vec());
}

#[test]
fn non_canonical_base64_is_refused() {
    assert!(matches!(data_url_to_bytes("data:x;base64,@@@"), Err(ImageDataError::Base64(_))));
    assert!(matches!(data_url_to_bytes("data:x;base64,QQ"), Err(ImageDataError::Base64(_))));
    assert!(matches!(data_url_to_bytes("data:x;base64,QR=="), Err(ImageDataError::Base64(_))));
    assert_eq!(data_url_to_bytes("data:x;base64,QQ==").unwrap(), vec![b'A']);
}

#[test]
fn empty_image_cannot_be_encoded() {
    let empty = RgbaImage::new(0, 3);
    assert!(matches!(image_to_data_url(&empty), Err(ImageDataError::Encode(_))));
    assert!(matches!(image_to_jpeg_data_url(&empty), Err(ImageDataError::Encode(_))));
}

#[test]
fn jpeg_preview_is_a_jpeg_data_url() {
    let image = sample();
    let url = image_to_jpeg_data_url(&image).unwrap();
    let payload = url.strip_prefix("data:image/jpeg;base64,").unwrap();
    let bytes = base64::engine::general_purpose::STANDARD.decode(payload).unwrap();
    assert_eq!(&bytes[..2], &[0xFF, 0xD8]);
    let decoded = image::load_from_memory(&bytes).unwrap();
    assert_eq!((decoded.width(), decoded.height()), (7, 5));
}

#[test]
fn rgb_bytes_drop_alpha() {
    let image = RgbaImage::from_raw(2, 1, vec![1, 2, 3, 4, 5, 6, 7, 8]).unwrap();
    assert_eq!(rgb_bytes(&image), vec![1, 2, 3, 5, 6, 7]);
}

#[test]
fn jpeg_refuses_sides_above_65535() {
    let wide = RgbaImage::new(65_536, 1);
    assert!(matches!(image_to_jpeg_data_url(&wide), Err(ImageDataError::Encode(_))));
    let widest = RgbaImage::new(65_535, 1);
    assert!(image_to_jpeg_data_url(&widest).is_ok());
}

#[test]
fn single_pixel_png_round_trip() {
    let image = RgbaImage::from_raw(1, 1, vec![9, 8, 7, 6]).unwrap();
    let back = data_url_to_image(&image_to_data_url(&image).unwrap()).unwrap();
    assert!(back.as_raw() == image.as_raw());
}

#[test]
fn resize_gives_the_requested_size() {
    let image = sample();
    let small = resize_image(&image, 3, 2);
    assert_eq!(small.dimensions(), (3, 2));
    let same = resize_image(&image, 7, 5);
    assert!(same.as_raw() == image.as_raw());
    let uniform = RgbaImage::from_raw(4, 4, [10_u8, 20, 30, 255].repeat(16)).unwrap();
    let half = resize_image(&uniform, 2, 2);
    assert!(half.as_raw() == [10_u8, 20, 30, 255].repeat(4).as_slice());
}
