use image::RgbImage;
use stega::carrier::MIN_CARRIER_CAPACITY;
use stega::{Carrier, SteganographyError};

const CHUNKS_IN_MIN_CAPACITY_CARRIER: usize = 3;

#[test]
fn create_new_carrier() {
    let rgb_image = RgbImage::new(3, 3);
    let result = Carrier::new(rgb_image.into_raw());
    assert!(result.is_ok());
}

#[test]
fn try_to_create_new_carrier() {
    let rgb_image = RgbImage::new(3, 2);
    let result = Carrier::new(rgb_image.into_raw());
    assert!(result.is_err());

    let error = result.err().unwrap();
    assert!(matches!(error, SteganographyError::SmallCarrier));
}

#[test]
fn verify_capacity() {
    let rgb_image = RgbImage::new(3, 3);
    let result = Carrier::new(rgb_image.into_raw());
    assert!(result.is_ok());

    let result = result.unwrap();
    assert_eq!(result.capacity(), MIN_CARRIER_CAPACITY);
}

#[test]
fn verify_chunks_size() {
    let rgb_image = RgbImage::new(3, 3);
    let result = Carrier::new(rgb_image.into_raw());
    assert!(result.is_ok());

    let result = result.unwrap();
    assert_eq!(
        result.payload_chunks().len(),
        CHUNKS_IN_MIN_CAPACITY_CARRIER
    );
}

#[test]
fn carrier_floor_is_exact() {
    assert!(matches!(
        Carrier::new(vec![0u8; 26]),
        Err(SteganographyError::SmallCarrier)
    ));
    assert!(Carrier::new(vec![0u8; 27]).is_ok());
    assert!(Carrier::new(vec![]).is_err());
}

#[test]
fn chunks_are_consecutive_windows() {
    let px: Vec<u8> = (0u8..30).collect();
    let carrier = Carrier::new(px.clone()).unwrap();
    let chunks = carrier.payload_chunks();
    assert_eq!(chunks.len(), 3);
    assert_eq!(chunks[0], &px[0..8]);
    assert_eq!(chunks[1], &px[8..16]);
    assert_eq!(chunks[2], &px[16..24]);
    assert_eq!(carrier.subpixels(), &px[..]);
    assert_eq!(carrier.unwrap(), px);
}
