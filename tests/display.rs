use temp_checker::display::{delta_tier, lines_for, paint, render, render_line, value_tier, Line, Tier};
use temp_checker::monitor::{parse_interval, IntervalError, Monitor};
use temp_checker::sample::Sample;

fn sample(entries: &[(&str, i64)]) -> Sample {
    let mut s = Sample::new();
    for (k, v) in entries {
        s.insert(k.to_string(), *v);
    }
    s
}

#[test]
fn delta_fall_is_green() {
    let prev = sample(&[("CPU", 60000)]);
    let cur = sample(&[("CPU", 55000)]);
    let lines = lines_for(&cur, &prev, true);
    assert_eq!(lines.len(), 1);
    assert_eq!(lines[0].value_text, "55.0");
    assert_eq!(lines[0].value_tier, Tier::Yellow);
    assert_eq!(lines[0].delta, Some(("-5.0".to_string(), Tier::Green)));
}

#[test]
fn new_label_gets_no_delta() {
    let prev = sample(&[("CPU", 60000)]);
    let cur = sample(&[("CPU", 60000), ("GPU", 41000)]);
    let lines = lines_for(&cur, &prev, true);
    assert_eq!(lines[0].delta, Some(("+0.0".to_string(), Tier::Plain)));
    assert_eq!(lines[1].label, "GPU");
    assert_eq!(lines[1].delta, None);
}

#[test]
fn no_delta_without_mode_or_previous() {
    let prev = sample(&[("CPU", 60000)]);
    let cur = sample(&[("CPU", 75000)]);
    assert_eq!(lines_for(&cur, &prev, false)[0].delta, None);
    assert_eq!(lines_for(&cur, &Sample::new(), true)[0].delta, None);
    assert_eq!(lines_for(&cur, &prev, true)[0].delta, Some(("+15.0".to_string(), Tier::Red)));
}

#[test]
fn half_second_interval_refused() {
    assert_eq!(parse_interval("0.5"), Err(IntervalError::TooShort));
    assert_eq!(parse_interval("-2"), Err(IntervalError::TooShort));
    assert_eq!(parse_interval("1"), Ok(1000));
    assert_eq!(parse_interval("2.5"), Ok(2500));
    assert_eq!(parse_interval("soon"), Ok(1000));
    assert_eq!(parse_interval("5e-1"), Err(IntervalError::TooShort));
    assert_eq!(parse_interval("1e1"), Ok(10000));
}

#[test]
fn value_color_thresholds() {
    assert_eq!(value_tier(49900), Tier::Green);
    assert_eq!(value_tier(50000), Tier::Yellow);
    assert_eq!(value_tier(69900), Tier::Yellow);
    assert_eq!(value_tier(70000), Tier::Red);
}

#[test]
fn delta_color_thresholds() {
    assert_eq!(delta_tier(-1), Tier::Green);
    assert_eq!(delta_tier(0), Tier::Plain);
    assert_eq!(delta_tier(4999), Tier::Yellow);
    assert_eq!(delta_tier(5000), Tier::Red);
}

#[test]
fn paint_sets_colour_when_forced() {
    colored::control::set_override(true);
    assert_eq!(paint("45.0", Tier::Green), "\x1b[32m45.0\x1b[0m");
    assert_eq!(paint("55.0", Tier::Yellow), "\x1b[33m55.0\x1b[0m");
    assert_eq!(paint("75.0", Tier::Red), "\x1b[31m75.0\x1b[0m");
    assert_eq!(paint("(+0.0)", Tier::Plain), "\x1b[30m(+0.0)\x1b[0m");
}

#[test]
fn render_plain_lines() {
    colored::control::set_override(false);
    let line = Line {
        label: "CPU".to_string(),
        value_text: "55.0".to_string(),
        value_tier: Tier::Yellow,
        delta: Some(("-5.0".to_string(), Tier::Green)),
    };
    assert_eq!(render_line(&line), "\nCPU\t(\u{b0}C)\t>>>\t55.0 (-5.0)");
    assert_eq!(render(&vec![line]), "\nPress Ctrl+C to exit\nCPU\t(\u{b0}C)\t>>>\t55.0 (-5.0)");
}

#[test]
fn monitor_keeps_previous_only_in_delta_mode() {
    let mut m = Monitor::new(true);
    let first = m.step(sample(&[("CPU", 60000)]));
    assert_eq!(first[0].delta, None);
    let second = m.step(sample(&[("CPU", 55000)]));
    assert_eq!(second[0].delta, Some(("-5.0".to_string(), Tier::Green)));
    assert_eq!(m.previous.get("CPU"), Some(55000));

    let mut plain = Monitor::new(false);
    plain.step(sample(&[("CPU", 60000)]));
    assert!(plain.previous.is_empty());
}
