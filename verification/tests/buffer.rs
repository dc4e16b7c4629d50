use rastermap::RenderError;
use rastermap::SimpleImage;

#[test]
fn new_buffer_is_zeroed() {
    let img = SimpleImage::new(3, 2);
    assert_eq!(img.width(), 3);
    assert_eq!(img.height(), 2);
    let bytes = img.as_bytes();
    assert_eq!(bytes.len(), 4 * 3 * 2);
    for b in bytes {
        assert_eq!(*b, 0u8);
    }
}

#[test]
fn set_then_get_returns_last_written() {
    let mut img = SimpleImage::new(3, 3);
    assert_eq!(img.set(1, 2, [9, 8, 7, 6]), Ok(()));
    assert_eq!(img.get(1, 2), Ok([9, 8, 7, 6]));
    assert_eq!(img.set(1, 2, [1, 2, 3, 4]), Ok(()));
    assert_eq!(img.get(1, 2), Ok([1, 2, 3, 4]));
    assert_eq!(img.get(0, 0), Ok([0, 0, 0, 0]));
}

#[test]
fn out_of_bounds_access_fails() {
    let mut img = SimpleImage::new(4, 3);
    assert_eq!(img.get(4, 0), Err(RenderError::IndexOutOfBounds));
    assert_eq!(img.get(0, 3), Err(RenderError::IndexOutOfBounds));
    assert_eq!(img.set(4, 0, [1, 1, 1, 1]), Err(RenderError::IndexOutOfBounds));
    for b in img.as_bytes() {
        assert_eq!(*b, 0u8);
    }
}

#[test]
fn zero_size_buffer_has_no_pixels() {
    let img = SimpleImage::new(0, 0);
    assert_eq!(img.as_bytes().len(), 0);
    assert_eq!(img.get(0, 0), Err(RenderError::IndexOutOfBounds));
}
