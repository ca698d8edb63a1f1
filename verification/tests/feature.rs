use plantastic::feature::classify_color;
use plantastic::timing::{timing_verdict, TimingVerdict, DEFAULT_TIMEOUT_SECS};

#[test]
fn test_color_classification_green() {
    let colors = vec![Some([30, 160, 40]), Some([20, 180, 30]), Some([40, 150, 50])];
    assert_eq!(classify_color(&colors, &[0, 1, 2]), "green");
}

#[test]
fn test_color_classification_brown() {
    let colors = vec![Some([140, 90, 50]), Some([150, 100, 60]), Some([130, 80, 40])];
    assert_eq!(classify_color(&colors, &[0, 1, 2]), "brown");
}

#[test]
fn test_color_classification_gray() {
    let colors = vec![Some([120, 120, 120]), Some([130, 125, 128])];
    assert_eq!(classify_color(&colors, &[0, 1]), "gray");
}

#[test]
fn test_color_classification_white() {
    let colors = vec![Some([240, 235, 230]), Some([220, 210, 215])];
    assert_eq!(classify_color(&colors, &[0, 1]), "white");
}

#[test]
fn test_color_classification_no_color() {
    let colors: Vec<Option<[u8; 3]>> = vec![None, None];
    assert_eq!(classify_color(&colors, &[0, 1]), "unknown");
}

#[test]
fn colour_of_members_only() {
    // Point 1 is ignored; points without colour do not count.
    let colors = vec![Some([10, 10, 10]), Some([250, 250, 250]), None, Some([20, 20, 200])];
    assert_eq!(classify_color(&colors, &[0, 2, 3]), "mixed");
    assert_eq!(classify_color(&[Some([50, 90, 10])], &[0]), "green");
    // Green exactly 1.2 times red is not "more than" it.
    assert_eq!(classify_color(&[Some([75, 90, 0])], &[0]), "mixed");
    assert_eq!(classify_color(&[Some([74, 90, 0])], &[0]), "green");
}

#[test]
fn timing_verdicts() {
    let budget = DEFAULT_TIMEOUT_SECS as u128 * 1_000_000_000;
    assert_eq!(timing_verdict(1_000_000, budget), TimingVerdict::Fast);
    assert_eq!(timing_verdict(5_000_000_000, budget), TimingVerdict::Fast);
    assert_eq!(timing_verdict(5_000_000_001, budget), TimingVerdict::Slow);
    assert_eq!(timing_verdict(budget, budget), TimingVerdict::Slow);
    assert_eq!(timing_verdict(budget + 1, budget), TimingVerdict::TooSlow);
}
