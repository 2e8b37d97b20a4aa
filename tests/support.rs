use speedy2d::expected::{actual_image_name, compare_capture, get_expected_image_path, should_keep_actual, CaptureVerdict};
use speedy2d::geom::{ClipStack, Rect};
use speedy2d::time::{TimeClock, Timer};

#[test]
fn expected_image_path_is_built_from_name() {
    assert_eq!(get_expected_image_path("basic_rectangles"), "test/assets/expected_images/test_basic_rectangles.png");
    assert_eq!(actual_image_name("half_circle"), "half_circle_ACTUAL");
}

#[test]
fn capture_verdicts() {
    let good = vec![1u8; 2 * 3 * 4];
    assert_eq!(compare_capture(&None, &good, 2, 3), CaptureVerdict::MissingExpected);
    assert_eq!(compare_capture(&Some(good.clone()), &good, 2, 3), CaptureVerdict::Matches);
    assert_eq!(compare_capture(&Some(vec![1u8; 5]), &good, 2, 3), CaptureVerdict::ExpectedSizeMismatch);
    assert_eq!(compare_capture(&Some(good.clone()), &vec![1u8; 5], 2, 3), CaptureVerdict::ActualSizeMismatch);
    let mut other = good.clone();
    other[17] = 9;
    assert_eq!(compare_capture(&Some(good.clone()), &other, 2, 3), CaptureVerdict::Differs);
    assert!(should_keep_actual(&None, &good));
    assert!(should_keep_actual(&Some(good.clone()), &other));
    assert!(!should_keep_actual(&Some(good.clone()), &good));
}

#[test]
fn clock_and_timer_start() {
    let clock = TimeClock::new().unwrap();
    let start = clock.now();
    let first = clock.elapsed_since(&start);
    let second = clock.elapsed_since(&start);
    assert!(second >= first);
    let timer = Timer::new().unwrap();
    let a = timer.elapsed();
    let b = timer.elapsed();
    assert!(b >= a);
}

#[test]
fn clip_stack_effective_rectangle() {
    let mut s = ClipStack::new();
    assert_eq!(s.effective(), None);
    s.push(Rect::from_tuples((0, 0), (10, 10)));
    s.push(Rect::from_tuples((5, -3), (20, 8)));
    assert_eq!(s.effective(), Some(Rect::from_tuples((5, 0), (10, 8))));
    assert!(!s.effective().unwrap().is_empty());
    s.push(Rect::from_tuples((12, 0), (14, 5)));
    assert!(s.effective().unwrap().is_empty());
    assert_eq!(s.pop(), Some(Rect::from_tuples((12, 0), (14, 5))));
    s.clear();
    assert_eq!(s.effective(), None);
    assert!(Rect::from_tuples((1, 1), (3, 3)).contains(2, 1));
    assert!(!Rect::from_tuples((1, 1), (3, 3)).contains(3, 1));
}
