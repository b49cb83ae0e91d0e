use pdf_filter::error::FilterError;
use pdf_filter::geom::Rect;
use pdf_filter::pixmap::ColorSpace;
use pdf_filter::pixmap::Pixmap;

#[test]
fn test_pixmap_color_space() {
    let cs = ColorSpace::device_rgb();
    let pixmap = Pixmap::new_with_w_h(&cs, 100, 100, false).expect("Pixmap::new_with_w_h");
    let pixmap_cs = pixmap.color_space();
    assert_eq!(cs, pixmap_cs);
}

#[test]
fn test_pixmap_clear() {
    let cs = ColorSpace::device_rgb();
    let mut pixmap = Pixmap::new_with_w_h(&cs, 100, 100, false).expect("Pixmap::new_with_w_h");
    pixmap.clear();
    pixmap.clear_with_value(1);
}

#[test]
fn pixmap_shape_and_fill() {
    let cs = ColorSpace::device_rgb();
    let mut p = Pixmap::new_with_w_h(&cs, 100, 50, false).expect("Pixmap::new_with_w_h");
    assert!(p.stride() >= 300);
    assert_eq!(p.stride(), 300);
    assert_eq!(p.number_of_components(), 3);
    assert!(!p.alpha());
    assert_eq!(p.width(), 100);
    assert_eq!(p.height(), 50);
    assert_eq!(p.samples().len(), 300 * 50);
    p.clear();
    assert!(p.samples().iter().all(|&b| b == 0));
    p.clear_with_value(7);
    assert!(p.samples().iter().all(|&b| b == 7));
}

#[test]
fn pixmap_alpha_adds_component() {
    let cs = ColorSpace::device_gray();
    let p = Pixmap::new_with_w_h(&cs, 10, 10, true).unwrap();
    assert_eq!(p.number_of_components(), 2);
    assert_eq!(p.stride(), 20);
    let q = Pixmap::new_with_w_h(&cs, 10, 10, false).unwrap();
    assert_eq!(q.number_of_components(), 1);
}

#[test]
fn pixmap_new_with_rect_derives_shape() {
    let cs = ColorSpace::device_cmyk();
    let r = Rect { x0: 2, y0: 3, x1: 7, y1: 13 };
    let p = Pixmap::new_with_rect(&cs, r, false).unwrap();
    assert_eq!(p.x(), 2);
    assert_eq!(p.y(), 3);
    assert_eq!(p.width(), 5);
    assert_eq!(p.height(), 10);
    assert_eq!(p.number_of_components(), 4);
}

#[test]
fn pixmap_negative_extent_is_allocation_failure() {
    let cs = ColorSpace::device_rgb();
    let r = Pixmap::new(&cs, 0, 0, -1, 5, false);
    assert!(matches!(r, Err(FilterError::AllocationFailure)));
    let r2 = Pixmap::new(&cs, 0, 0, 5, -1, false);
    assert!(matches!(r2, Err(FilterError::AllocationFailure)));
    let r3 = Pixmap::new_with_rect(&cs, Rect { x0: 5, y0: 0, x1: 0, y1: 5 }, false);
    assert!(matches!(r3, Err(FilterError::AllocationFailure)));
}

#[test]
fn pixmap_zero_extent_is_fine() {
    let cs = ColorSpace::device_gray();
    let p = Pixmap::new_with_w_h(&cs, 0, 0, false).unwrap();
    assert_eq!(p.samples().len(), 0);
}

#[test]
fn pixmap_duplicate_is_equal_and_independent() {
    let cs = ColorSpace::device_gray();
    let mut p = Pixmap::new_with_w_h(&cs, 4, 4, false).unwrap();
    p.clear_with_value(9);
    let q = p.duplicate();
    p.clear();
    assert!(q.samples().iter().all(|&b| b == 9));
    assert!(p.samples().iter().all(|&b| b == 0));
    assert_eq!(q.width(), 4);
    assert_eq!(q.color_space(), cs);
}

#[test]
fn clear_with_value_uses_low_byte() {
    let cs = ColorSpace::device_gray();
    let mut p = Pixmap::new_with_w_h(&cs, 2, 2, false).unwrap();
    p.clear_with_value(0x1_07);
    assert!(p.samples().iter().all(|&b| b == 7));
}
