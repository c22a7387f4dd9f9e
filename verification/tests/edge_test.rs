use doc_quad::edge::detector::EdgeDetector;
use doc_quad::edge::morphology::Morphology;
use doc_quad::edge::threshold::{AdaptiveThreshold, ThresholdPlan};
use doc_quad::memory::buffer::DocBuffer;
use doc_quad::DocQuadError;
use fast_canny::CannyConfig;

#[test]
fn dilate_spreads_a_pixel_over_its_window() {
    let mut src = vec![0u8; 25];
    src[12] = 1;
    let d = Morphology::dilate(&src, 5, 5, 1);
    for y in 0..5 {
        for x in 0..5 {
            let inside = (1..=3).contains(&x) && (1..=3).contains(&y);
            assert_eq!(d[y * 5 + x], if inside { 255 } else { 0 });
        }
    }
}

#[test]
fn erode_clears_the_border_and_isolated_pixels() {
    let e = Morphology::erode(&vec![9u8; 25], 5, 5, 1);
    for y in 0..5 {
        for x in 0..5 {
            let interior = (1..=3).contains(&x) && (1..=3).contains(&y);
            assert_eq!(e[y * 5 + x], if interior { 255 } else { 0 });
        }
    }
    let mut src = vec![255u8; 25];
    src[12] = 0;
    let e = Morphology::erode(&src, 5, 5, 1);
    assert!(e.iter().all(|&v| v == 0));
}

#[test]
fn close_bridges_a_gap() {
    // A horizontal line with a one-pixel gap at x = 4.
    let (w, h) = (9usize, 5usize);
    let mut src = vec![0u8; w * h];
    for x in 1..8 {
        if x != 4 {
            src[2 * w + x] = 255;
        }
    }
    let c = Morphology::close(&src, w, h, 1);
    for x in 1..8 {
        assert_eq!(c[2 * w + x], 255, "x = {}", x);
    }
    assert_eq!(c.len(), w * h);
    assert!(c.iter().all(|&v| v == 0 || v == 255));
}

#[test]
fn choose_morph_radius_grows_with_the_image() {
    assert_eq!(EdgeDetector::choose_morph_radius(512, 300), 1);
    assert_eq!(EdgeDetector::choose_morph_radius(513, 300), 2);
    assert_eq!(EdgeDetector::choose_morph_radius(300, 1024), 2);
    assert_eq!(EdgeDetector::choose_morph_radius(1025, 10), 3);
}

#[test]
fn detector_refuses_tiny_images() {
    assert!(matches!(EdgeDetector::new(2, 10), Err(DocQuadError::EdgeDetectionError)));
    assert!(matches!(EdgeDetector::new(10, 2), Err(DocQuadError::EdgeDetectionError)));
    assert!(EdgeDetector::new(3, 3).is_ok());
    // A side under three is refused before anything is allocated.
    assert!(matches!(EdgeDetector::new(2, 1usize << 62), Err(DocQuadError::EdgeDetectionError)));
}

#[test]
fn detector_refuses_an_image_of_another_size() {
    let mut det = EdgeDetector::new(10, 10).unwrap();
    let data = vec![0u8; 64];
    let buffer = DocBuffer::new(&data, 8, 8, 8).unwrap();
    let cfg = CannyConfig::builder().sigma(1.0).thresholds(10.0, 20.0).build().unwrap();
    assert!(matches!(det.detect(&buffer, &cfg), Err(DocQuadError::EdgeDetectionError)));
}

#[test]
fn detector_finds_a_step_and_keeps_the_border_clear() {
    let (w, h) = (40usize, 30usize);
    let mut data = vec![20u8; w * h];
    for y in 0..h {
        for x in 20..w {
            data[y * w + x] = 220;
        }
    }
    let mut det = EdgeDetector::new(w, h).unwrap();
    let buffer = DocBuffer::new(&data, w as u32, h as u32, w as u32).unwrap();
    let cfg = CannyConfig::builder().sigma(1.0).thresholds(30.0, 60.0).build().unwrap();
    let edges = det.detect(&buffer, &cfg).unwrap();
    assert_eq!(edges.len(), w * h);
    assert!(edges.iter().all(|&v| v == 0 || v == 255));
    assert!(edges.iter().any(|&v| v == 255));
    for x in 0..w {
        assert_eq!(edges[x], 0);
        assert_eq!(edges[(h - 1) * w + x], 0);
    }
    // A raw map that is all edge except its border closes to its interior band.
    let mut raw = vec![255u8; w * h];
    for x in 0..w {
        raw[x] = 0;
        raw[(h - 1) * w + x] = 0;
    }
    for y in 0..h {
        raw[y * w] = 0;
        raw[y * w + w - 1] = 0;
    }
    let refined = EdgeDetector::refine_edges(&raw, w, h);
    // Closing refills the cleared ring inside the image, but never the image border.
    assert_eq!(refined[0], 0);
    assert_eq!(refined[w + 1], 255);
    assert_eq!(refined[5 * w + 5], 255);
}

fn hist_of(values: &[(usize, u32)]) -> [u32; 256] {
    let mut h = [0u32; 256];
    for &(v, c) in values {
        h[v] = c;
    }
    h
}

#[test]
fn histogram_counts_values() {
    let h = AdaptiveThreshold::histogram(&[3, 3, 7, 255, 3]);
    assert_eq!(h[3], 3);
    assert_eq!(h[7], 1);
    assert_eq!(h[255], 1);
    assert_eq!(h.iter().sum::<u32>(), 5);
}

#[test]
fn percentile_and_median() {
    let h = hist_of(&[(10, 50), (20, 30), (200, 20)]);
    assert_eq!(AdaptiveThreshold::percentile(&h, 100, 50), 10);
    assert_eq!(AdaptiveThreshold::percentile(&h, 100, 51), 20);
    assert_eq!(AdaptiveThreshold::percentile(&h, 100, 80), 20);
    assert_eq!(AdaptiveThreshold::percentile(&h, 100, 85), 200);
    assert_eq!(AdaptiveThreshold::percentile(&h, 100, 0), 0);
    assert_eq!(AdaptiveThreshold::median(&h, 100), 10);
    // A total larger than the histogram holds: nothing reaches the target.
    assert_eq!(AdaptiveThreshold::percentile(&h, 1000, 90), 255);
    assert_eq!(AdaptiveThreshold::median(&h, 1000), 127);
}

#[test]
fn plan_branches() {
    let sparse = hist_of(&[(0, 60), (100, 30), (200, 10)]);
    assert_eq!(AdaptiveThreshold::plan(&sparse, 100), ThresholdPlan::Sparse { median: 0, p70: 100, p85: 100 });
    let normal = hist_of(&[(50, 80), (200, 20)]);
    assert_eq!(AdaptiveThreshold::plan(&normal, 100), ThresholdPlan::Normal { median: 50 });
    let flat = hist_of(&[(240, 100)]);
    assert_eq!(
        AdaptiveThreshold::plan(&flat, 100),
        ThresholdPlan::ExtremeHighlight { median: 240, dynamic_range: 0, highlight_spread: 0 }
    );
    let spiky = hist_of(&[(40, 20), (180, 50), (230, 30)]);
    assert_eq!(
        AdaptiveThreshold::plan(&spiky, 100),
        ThresholdPlan::ExtremeHighlight { median: 180, dynamic_range: 190, highlight_spread: 0 }
    );
    let bright = hist_of(&[(40, 20), (180, 50), (210, 15), (250, 15)]);
    assert_eq!(AdaptiveThreshold::plan(&bright, 100), ThresholdPlan::BrightBackground { median: 180, p25: 180, p75: 210 });
}

#[test]
fn plan_for_reads_only_the_image_pixels() {
    // Padding bytes are 255; the image is all 60.
    let (w, h, stride) = (4u32, 3u32, 6u32);
    let mut data = vec![255u8; (h * stride) as usize];
    for y in 0..h {
        for x in 0..w {
            data[(y * stride + x) as usize] = 60;
        }
    }
    let buffer = DocBuffer::new(&data, w, h, stride).unwrap();
    assert_eq!(AdaptiveThreshold::plan_for(&buffer), ThresholdPlan::Normal { median: 60 });
    assert_eq!(buffer.compact(), vec![60u8; 12]);
}

#[test]
fn fast_median_samples_every_fourth_pixel() {
    // 8x8 image: sampled pixels (0,0), (4,0), (0,4), (4,4) are 9, 9, 100, 100; others 200.
    let mut data = vec![200u8; 64];
    data[0] = 9;
    data[4] = 9;
    data[4 * 8] = 100;
    data[4 * 8 + 4] = 100;
    let buffer = DocBuffer::new(&data, 8, 8, 8).unwrap();
    assert_eq!(AdaptiveThreshold::fast_median(&buffer), 9);
    let one = [77u8];
    let buffer = DocBuffer::new(&one, 1, 1, 1).unwrap();
    assert_eq!(AdaptiveThreshold::fast_median(&buffer), 77);
    let empty: Vec<u8> = Vec::new();
    let buffer = DocBuffer::new(&empty, 0, 0, 0).unwrap();
    assert_eq!(AdaptiveThreshold::fast_median(&buffer), 127);
}

#[test]
fn median_is_the_middle_value() {
    assert_eq!(AdaptiveThreshold::median(&hist_of(&[(77, 1)]), 1), 77);
    // Seven values 7, 7, 7, 8, 8, 8, 8: the fourth is 8.
    assert_eq!(AdaptiveThreshold::median(&hist_of(&[(7, 3), (8, 4)]), 7), 8);
    // An even count gives the lower middle value.
    assert_eq!(AdaptiveThreshold::median(&hist_of(&[(0, 1), (255, 1)]), 2), 0);
    assert_eq!(AdaptiveThreshold::median(&hist_of(&[(3, 2), (9, 2)]), 4), 3);
}

#[test]
fn percentile_grows_with_percent() {
    let h = hist_of(&[(3, 10), (50, 40), (90, 25), (250, 25)]);
    let mut last = 0u8;
    for percent in 0..=100u32 {
        let v = AdaptiveThreshold::percentile(&h, 100, percent);
        assert!(v >= last);
        last = v;
    }
    assert_eq!(last, 250);
}

#[test]
fn morphology_is_monotone() {
    let (w, h) = (7usize, 6usize);
    let mut a = vec![0u8; w * h];
    a[2 * w + 2] = 255;
    a[2 * w + 4] = 255;
    let mut b = a.clone();
    b[2 * w + 3] = 255;
    b[3 * w + 3] = 255;
    for r in 1..3 {
        let (da, db) = (Morphology::dilate(&a, w, h, r), Morphology::dilate(&b, w, h, r));
        let (ca, cb) = (Morphology::close(&a, w, h, r), Morphology::close(&b, w, h, r));
        for i in 0..w * h {
            assert!(da[i] != 255 || db[i] == 255);
            assert!(ca[i] != 255 || cb[i] == 255);
        }
    }
}

#[test]
fn close_keeps_interior_edges() {
    let (w, h) = (7usize, 7usize);
    let mut src = vec![0u8; w * h];
    src[3 * w + 3] = 1;
    let c = Morphology::close(&src, w, h, 1);
    assert_eq!(c[3 * w + 3], 255);
    assert_eq!(Morphology::erode(&src, w, h, 1)[3 * w + 3], 0);
}

#[test]
fn dilations_compose_and_closing_is_idempotent() {
    let (w, h) = (9usize, 7usize);
    let mut src = vec![0u8; w * h];
    src[0] = 255;
    src[3 * w + 5] = 255;
    src[6 * w + 8] = 255;
    src[2 * w + 2] = 255;
    let twice = Morphology::dilate(&Morphology::dilate(&src, w, h, 1), w, h, 2);
    assert_eq!(twice, Morphology::dilate(&src, w, h, 3));
    for r in 1..3 {
        let c = Morphology::close(&src, w, h, r);
        assert_eq!(Morphology::close(&c, w, h, r), c);
        assert_eq!(c, Morphology::erode(&Morphology::dilate(&src, w, h, r), w, h, r));
    }
}

#[test]
fn plan_depends_only_on_the_histogram() {
    // The same twelve values, arranged differently and in different layouts.
    let a: Vec<u8> = vec![5, 9, 200, 7, 5, 5, 9, 180, 3, 3, 4, 5];
    let mut b = a.clone();
    b.reverse();
    let ba = DocBuffer::new(&a, 4, 3, 4).unwrap();
    let bb = DocBuffer::new(&b, 6, 2, 6).unwrap();
    assert_eq!(AdaptiveThreshold::plan_for(&ba), AdaptiveThreshold::plan_for(&bb));
}
