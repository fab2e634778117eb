use travel_ura::prediction::{Prediction, Predictions};
use travel_ura::time::datetime_from_millis;

fn prediction(line: &str, destination: &str, millis: i64) -> Prediction {
    Prediction {
        stop_point_name: "Bushof".to_string(),
        line_name: line.to_string(),
        destination_text: destination.to_string(),
        trip_id: 1,
        estimated_time: datetime_from_millis(millis),
    }
}

fn set(captured: i64, predictions: Vec<Prediction>) -> Predictions {
    Predictions { time: datetime_from_millis(captured), predictions }
}

#[test]
fn no_prediction_is_no_text() {
    assert_eq!(set(0, vec![]).format(false), "");
    assert_eq!(set(0, vec![]).format(true), "");
}

#[test]
fn verbose_lines_are_aligned() {
    let predictions = set(
        1_000_000,
        vec![
            prediction("33", "Fuchserde", 1_000_000 + 5 * 60_000),
            prediction("3A", "Uniklinik", 1_000_000 + 12 * 60_000 + 59_999),
            prediction("SB63", "Vaals Busstation", 1_000_000 + 123 * 60_000),
        ],
    );
    assert_eq!(
        predictions.format(false),
        "  5min   33 Fuchserde\n 12min   3A Uniklinik\n123min SB63 Vaals Busstation\n"
    );
}

#[test]
fn compact_lines_are_not_aligned() {
    let predictions = set(
        1_000_000,
        vec![
            prediction("33", "Fuchserde", 1_000_000 + 5 * 60_000),
            prediction("SB63", "Vaals Busstation", 1_000_000 + 123 * 60_000),
        ],
    );
    assert_eq!(predictions.format(true), "5min 33 Fuchserde\n123min SB63 Vaals Busstation\n");
}

#[test]
fn wide_fields_are_not_cut() {
    let predictions = set(0, vec![prediction("SB633", "X", 1234 * 60_000), prediction("", "", 0)]);
    assert_eq!(predictions.format(false), "1234min SB633 X\n  0min      \n");
    assert_eq!(predictions.format(true), "1234min SB633 X\n0min  \n");
}

#[test]
fn past_predictions_count_down_from_zero() {
    let predictions = set(
        600_000,
        vec![prediction("1", "a", 600_000 - 59_999), prediction("2", "b", 600_000 - 60_000), prediction("3", "c", 0), prediction("4", "d", -600_000)],
    );
    assert_eq!(predictions.format(false), "  0min    1 a\n -1min    2 b\n-10min    3 c\n-20min    4 d\n");
    assert_eq!(predictions.format(true), "0min 1 a\n-1min 2 b\n-10min 3 c\n-20min 4 d\n");
}

#[test]
fn alignment_counts_characters() {
    let predictions = set(0, vec![prediction("\u{00fc}", "Br\u{00fc}ssel", 60_000)]);
    assert_eq!(predictions.format(false), "  1min    \u{00fc} Br\u{00fc}ssel\n");
}

#[test]
fn every_digit_is_written() {
    let predictions = set(0, vec![prediction("x", "y", 1_234_567_890 * 60_000), prediction("x", "y", 10 * 60_000)]);
    assert_eq!(predictions.format(true), "1234567890min x y\n10min x y\n");
}

#[test]
fn extreme_spans_are_written() {
    let forward = Predictions { time: datetime_from_millis(i64::MIN), predictions: vec![prediction("x", "y", i64::MAX)] };
    assert_eq!(forward.format(true), "307445734561825min x y\n");
    let backward = Predictions { time: datetime_from_millis(i64::MAX), predictions: vec![prediction("x", "y", i64::MIN)] };
    assert_eq!(backward.format(false), "-307445734561825min    x y\n");
}

#[test]
fn text_agrees_with_the_standard_formatter() {
    for (minutes, line) in [(0i64, "1"), (7, "33"), (42, "SB63"), (-3, "N1"), (100, "12345"), (-100, "")] {
        let predictions = set(0, vec![prediction(line, "Ziel", minutes * 60_000)]);
        assert_eq!(predictions.format(false), format!("{:>3}min {:>4} {}\n", minutes, line, "Ziel"));
        assert_eq!(predictions.format(true), format!("{}min {} {}\n", minutes, line, "Ziel"));
    }
}
