use doc_quad::document::{locate_quad, QuadCandidate};
use doc_quad::edge::threshold::{AdaptiveThreshold, ThresholdPlan};
use doc_quad::memory::buffer::DocBuffer;
use fast_canny::CannyConfig;

/// A luminance plane with a filled rectangle: 200 inside `[tl, br)`, 50 elsewhere.
fn create_mock_y_channel(
    width: u32,
    height: u32,
    stride: u32,
    rect_tl: (u32, u32),
    rect_br: (u32, u32),
) -> Vec<u8> {
    let mut data = vec![50u8; (height * stride) as usize];
    for y in 0..height {
        for x in 0..width {
            let idx = (y * stride + x) as usize;
            if x >= rect_tl.0 && x < rect_br.0 && y >= rect_tl.1 && y < rect_br.1 {
                data[idx] = 200;
            }
        }
    }
    data
}

/// The mock images are mostly background (50): their strategy is the median
/// one with median 50, whose thresholds at sigma 0.33 are 33.5 and 66.5.
fn mock_config(buffer: &DocBuffer) -> CannyConfig {
    assert_eq!(AdaptiveThreshold::plan_for(buffer), ThresholdPlan::Normal { median: 50 });
    CannyConfig::builder().sigma(1.0).thresholds(33.5, 66.5).build().unwrap()
}

/// Runs the processing-resolution pipeline on an image small enough to need
/// no downsampling, compacting strided rows first.
fn detect(data: &[u8], width: u32, height: u32, stride: u32) -> Option<QuadCandidate> {
    let buffer = DocBuffer::new(data, width, height, stride).expect("Failed to create buffer");
    let compact = buffer.compact();
    let proc_buffer = DocBuffer::new(&compact, width, height, width).expect("Failed to create buffer");
    let cfg = mock_config(&proc_buffer);
    locate_quad(&proc_buffer, &cfg).expect("Detection process failed")
}

#[test]
fn test_strided_buffer_detection() {
    let width = 640u32;
    let height = 480u32;
    let stride = 700u32;
    let data = create_mock_y_channel(width, height, stride, (100, 100), (400, 300));
    let result = detect(&data, width, height, stride);
    assert!(result.is_some(), "Should detect the rectangular document");
    if let Some(quad) = result {
        let area = quad.area2 as f32 / 2.0;
        assert!(area > 50000.0 && area < 70000.0, "Area out of range: {}", area);
        let [tl, tr, br, bl] = quad.points;
        assert!(tl.x > 90 && tl.x < 110, "TL.x out of range: {}", tl.x);
        assert!(tl.y > 90 && tl.y < 110, "TL.y out of range: {}", tl.y);
        assert!(tr.x > 390 && tr.x < 410, "TR.x out of range: {}", tr.x);
        assert!(tr.y > 90 && tr.y < 110, "TR.y out of range: {}", tr.y);
        assert!(br.x > 390 && br.x < 410, "BR.x out of range: {}", br.x);
        assert!(br.y > 290 && br.y < 310, "BR.y out of range: {}", br.y);
        assert!(bl.x > 90 && bl.x < 110, "BL.x out of range: {}", bl.x);
        assert!(bl.y > 290 && bl.y < 310, "BL.y out of range: {}", bl.y);
    }
}

#[test]
fn strided_layout_detects_as_contiguous() {
    let (width, height) = (320u32, 240u32);
    let padded = create_mock_y_channel(width, height, 350, (50, 50), (270, 190));
    let packed = create_mock_y_channel(width, height, width, (50, 50), (270, 190));
    let a = detect(&padded, width, height, 350).expect("Should detect the document in a padded buffer");
    let b = detect(&packed, width, height, width).expect("Should detect the document in a packed buffer");
    assert_eq!(a.points, b.points);
    assert_eq!(a.area2, b.area2);
}

#[test]
fn test_contiguous_buffer_detection() {
    let width = 320u32;
    let height = 240u32;
    let stride = width;
    let data = create_mock_y_channel(width, height, stride, (50, 50), (270, 190));
    let result = detect(&data, width, height, stride);
    assert!(result.is_some(), "Should detect document in contiguous buffer");
    if let Some(quad) = result {
        let area = quad.area2 as f32 / 2.0;
        assert!(area > 25000.0 && area < 36000.0, "Area out of range: {}", area);
        let [tl, tr, br, bl] = quad.points;
        assert!(tl.x > 40 && tl.x < 60, "TL.x out of range: {}", tl.x);
        assert!(tl.y > 40 && tl.y < 60, "TL.y out of range: {}", tl.y);
        assert!(tr.x > 260 && tr.x < 280, "TR.x out of range: {}", tr.x);
        assert!(tr.y > 40 && tr.y < 60, "TR.y out of range: {}", tr.y);
        assert!(br.x > 260 && br.x < 280, "BR.x out of range: {}", br.x);
        assert!(br.y > 180 && br.y < 200, "BR.y out of range: {}", br.y);
        assert!(bl.x > 40 && bl.x < 60, "BL.x out of range: {}", bl.x);
        assert!(bl.y > 180 && bl.y < 200, "BL.y out of range: {}", bl.y);
    }
}

#[test]
fn test_buffer_overflow_protection() {
    let data = vec![0u8; 100];
    assert!(DocBuffer::new(&data, 10, 10, 9).is_err(), "stride < width should fail");
    assert!(DocBuffer::new(&data, 10, 10, 11).is_err(), "insufficient data should fail");
    let data = vec![0u8; 100];
    assert!(DocBuffer::new(&data, 10, 10, 10).is_ok(), "valid buffer should succeed");
}

#[test]
fn no_document_in_uniform_image() {
    let data = vec![128u8; 200 * 150];
    let buffer = DocBuffer::new(&data, 200, 150, 200).unwrap();
    let cfg = CannyConfig::builder().sigma(1.0).thresholds(85.0, 170.0).build().unwrap();
    assert!(locate_quad(&buffer, &cfg).unwrap().is_none());
}

#[test]
fn tiny_image_is_refused_by_the_detector() {
    let data = vec![0u8; 4];
    let buffer = DocBuffer::new(&data, 2, 2, 2).unwrap();
    let cfg = CannyConfig::builder().sigma(1.0).thresholds(10.0, 20.0).build().unwrap();
    assert!(matches!(locate_quad(&buffer, &cfg), Err(doc_quad::DocQuadError::EdgeDetectionError)));
    // An empty image with a tall side is refused the same way.
    let empty: [u8; 0] = [];
    let buffer = DocBuffer::new(&empty, 0, 1 << 25, 0).unwrap();
    assert!(matches!(locate_quad(&buffer, &cfg), Err(doc_quad::DocQuadError::EdgeDetectionError)));
}
