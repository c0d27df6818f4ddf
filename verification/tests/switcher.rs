use pipewire_sample_rate_switcher::conf::canonical_samplerate_conf;
use pipewire_sample_rate_switcher::conf::parse_current_rate;
use pipewire_sample_rate_switcher::cycle::next_rate;
use pipewire_sample_rate_switcher::parse::extract_rates;
use pipewire_sample_rate_switcher::parse::first_rate_in;
use pipewire_sample_rate_switcher::parse::parse_options_from_sway;
use pipewire_sample_rate_switcher::parse::sort_dedup;
use pipewire_sample_rate_switcher::parse::ParseError;
use pipewire_sample_rate_switcher::restart::restart_step;
use pipewire_sample_rate_switcher::restart::RestartState;

const START: &str = "Pipewire Sample Rate Options Start";
const END: &str = "Pipewire Sample Rate Options End";

fn sway_block(options_line: &str) -> String {
    format!(
        "# some sway config\nset $mod Mod4\n# {}\n{}\n# {}\nbindsym $mod+Return exec foot\n",
        START, options_line, END
    )
}

#[test]
fn next_rate_cycles_forward() {
    let options = vec![44100, 48000, 96000];
    assert_eq!(next_rate(&options, 44100), 48000);
    assert_eq!(next_rate(&options, 48000), 96000);
}

#[test]
fn next_rate_wraps_to_first() {
    let options = vec![44100, 48000, 96000];
    assert_eq!(next_rate(&options, 96000), 44100);
}

#[test]
fn next_rate_unknown_falls_back_to_first() {
    let options = vec![44100, 48000, 96000];
    assert_eq!(next_rate(&options, 12345), 44100);
    assert_eq!(next_rate(&options, 0), 44100);
}

#[test]
fn next_rate_single_option_stays() {
    let options = vec![48000];
    assert_eq!(next_rate(&options, 48000), 48000);
    assert_eq!(next_rate(&options, 44100), 48000);
}

#[test]
fn next_rate_full_cycle_returns_to_start() {
    let options = vec![22050, 44100, 48000, 88200, 96000];
    for &start in options.iter() {
        let mut current = start;
        for _ in 0..options.len() {
            current = next_rate(&options, current);
        }
        assert_eq!(current, start);
    }
}

#[test]
fn parse_yields_ordered_options() {
    let content = sway_block("# Sample Rate Options = 44100, 48000, 96000");
    let parsed = parse_options_from_sway(&content, START, END);
    assert_eq!(parsed, Ok(vec![44100, 48000, 96000]));
}

#[test]
fn parse_ignores_whitespace_and_separators() {
    let content = sway_block("  \t# Sample Rate Options =   44100 ;48000 |  96000  ");
    let parsed = parse_options_from_sway(&content, START, END);
    assert_eq!(parsed, Ok(vec![44100, 48000, 96000]));
}

#[test]
fn parse_dedups_and_sorts() {
    let content = sway_block("# Sample Rate Options = 48000, 44100, 48000");
    let parsed = parse_options_from_sway(&content, START, END);
    assert_eq!(parsed, Ok(vec![44100, 48000]));
}

#[test]
fn parse_takes_five_digits_greedily() {
    // A six-digit listing reads as its first five digits; the leftover
    // single digit is not a rate.
    let content = sway_block("# Sample Rate Options = 123456");
    let parsed = parse_options_from_sway(&content, START, END);
    assert_eq!(parsed, Ok(vec![12345]));
}

#[test]
fn parse_ignores_short_numbers() {
    let content = sway_block("# Sample Rate Options = 999, 44100");
    let parsed = parse_options_from_sway(&content, START, END);
    assert_eq!(parsed, Ok(vec![44100]));
}

#[test]
fn parse_missing_start_marker_fails() {
    let content = format!("# Sample Rate Options = 44100\n# {}\n", END);
    let parsed = parse_options_from_sway(&content, START, END);
    assert_eq!(parsed, Err(ParseError::MissingStartMarker));
}

#[test]
fn parse_missing_end_marker_fails() {
    let content = format!("# {}\n# Sample Rate Options = 44100\n", START);
    let parsed = parse_options_from_sway(&content, START, END);
    assert_eq!(parsed, Err(ParseError::MissingEndMarker));
}

#[test]
fn parse_end_before_start_fails() {
    let content = format!("# {}\n# Sample Rate Options = 44100\n# {}\n", END, START);
    let parsed = parse_options_from_sway(&content, START, END);
    assert_eq!(parsed, Err(ParseError::MarkersOutOfOrder));
}

#[test]
fn parse_markers_on_same_line_fail() {
    let content = format!("# {} {}\n# Sample Rate Options = 44100\n", START, END);
    let parsed = parse_options_from_sway(&content, START, END);
    assert_eq!(parsed, Err(ParseError::MarkersOutOfOrder));
}

#[test]
fn parse_missing_options_line_fails() {
    let content = format!("# {}\n# nothing here\n# {}\n", START, END);
    let parsed = parse_options_from_sway(&content, START, END);
    assert_eq!(parsed, Err(ParseError::MissingOptionsLine));
}

#[test]
fn parse_options_line_outside_block_does_not_count() {
    let content = format!(
        "# Sample Rate Options = 44100\n# {}\n# nothing here\n# {}\n",
        START, END
    );
    let parsed = parse_options_from_sway(&content, START, END);
    assert_eq!(parsed, Err(ParseError::MissingOptionsLine));
}

#[test]
fn parse_empty_options_line_fails() {
    let content = sway_block("# Sample Rate Options = none yet");
    let parsed = parse_options_from_sway(&content, START, END);
    assert_eq!(parsed, Err(ParseError::NoRatesFound));
}

#[test]
fn extract_rates_scans_digit_runs() {
    assert_eq!(extract_rates("44100, 48000"), vec![44100, 48000]);
    assert_eq!(extract_rates("x96000y"), vec![96000]);
    assert_eq!(extract_rates("123"), Vec::<u32>::new());
    assert_eq!(extract_rates("1234567890"), vec![12345, 67890]);
    assert_eq!(extract_rates(""), Vec::<u32>::new());
}

#[test]
fn sort_dedup_normalizes() {
    assert_eq!(
        sort_dedup(&vec![96000, 44100, 96000, 44100, 48000]),
        vec![44100, 48000, 96000]
    );
    assert_eq!(sort_dedup(&Vec::new()), Vec::<u32>::new());
}

#[test]
fn canonical_conf_text_is_exact() {
    let text = canonical_samplerate_conf(48000, &vec![44100, 48000, 96000]);
    assert_eq!(
        text,
        "context.properties = {\n    default.clock.rate          = 48000\n    default.clock.allowed-rates = [ 44100 48000 96000 ]\n}\n"
    );
}

#[test]
fn canonical_conf_text_sorts_and_dedups() {
    let text = canonical_samplerate_conf(44100, &vec![96000, 44100, 96000]);
    assert_eq!(
        text,
        "context.properties = {\n    default.clock.rate          = 44100\n    default.clock.allowed-rates = [ 44100 96000 ]\n}\n"
    );
}

#[test]
fn current_rate_reads_canonical_text() {
    let text = canonical_samplerate_conf(96000, &vec![44100, 48000, 96000]);
    assert_eq!(parse_current_rate(&text), Some(96000));
}

#[test]
fn current_rate_round_trips_at_bounds() {
    for rate in [1000, 9999, 10000, 99999] {
        let text = canonical_samplerate_conf(rate, &vec![rate]);
        assert_eq!(parse_current_rate(&text), Some(rate));
    }
}

#[test]
fn current_rate_below_four_digits_is_not_read() {
    // A three-digit value renders shorter than the four digits the
    // grammar requires, so it does not read back.
    let text = canonical_samplerate_conf(999, &vec![999]);
    assert_eq!(parse_current_rate(&text), None);
}

#[test]
fn current_rate_reads_quoted_value() {
    let text = "context.properties = { default.clock.rate = \"44100\" }\n";
    assert_eq!(parse_current_rate(text), Some(44100));
}

#[test]
fn current_rate_reads_loose_spacing() {
    let text = "default.clock.rate\t =\n  48000";
    assert_eq!(parse_current_rate(text), Some(48000));
}

#[test]
fn current_rate_absent_key_reads_nothing() {
    assert_eq!(parse_current_rate("context.properties = { }\n"), None);
    assert_eq!(parse_current_rate(""), None);
}

#[test]
fn current_rate_needs_four_digits() {
    assert_eq!(parse_current_rate("default.clock.rate = 96"), None);
    assert_eq!(parse_current_rate("default.clock.rate = \"96\""), None);
}

#[test]
fn first_rate_in_metadata_output() {
    let out = "update: id:0 key:'clock.rate' value:'48000' type:''";
    assert_eq!(first_rate_in(out), Some(48000));
    assert_eq!(first_rate_in("no numbers here"), None);
}

#[test]
fn restart_plan_one_shot_success() {
    let s = restart_step(RestartState::TryRestartAll, true);
    assert_eq!(s, RestartState::Done { ok: true });
}

#[test]
fn restart_plan_fallback_success() {
    let mut s = RestartState::TryRestartAll;
    let events = [false, true, true, true, true];
    for &e in events.iter() {
        s = restart_step(s, e);
    }
    assert_eq!(s, RestartState::Done { ok: true });
}

#[test]
fn restart_plan_fallback_socket_results_immaterial() {
    let mut s = RestartState::TryRestartAll;
    let events = [false, false, true, false, true];
    for &e in events.iter() {
        s = restart_step(s, e);
    }
    assert_eq!(s, RestartState::Done { ok: true });
}

#[test]
fn restart_plan_fallback_failure() {
    let mut s = RestartState::TryRestartAll;
    for &e in [false, true, false, true, true].iter() {
        s = restart_step(s, e);
    }
    assert_eq!(s, RestartState::Done { ok: false });

    let mut s = RestartState::TryRestartAll;
    for &e in [false, true, true, true, false].iter() {
        s = restart_step(s, e);
    }
    assert_eq!(s, RestartState::Done { ok: false });
}

#[test]
fn restart_plan_done_is_final() {
    let s = restart_step(RestartState::Done { ok: false }, true);
    assert_eq!(s, RestartState::Done { ok: false });
}
