use scrcpy_core::config::{choose_config, ConfigEntry, ConfigTable};
use scrcpy_core::devices::{parse_devices, parse_version, trim_bytes, unknown_bytes};
use scrcpy_core::normalize::{normalize, normalize_tokens};
use scrcpy_core::session::SessionState;
use scrcpy_core::supervisor::Supervisor;
use scrcpy_core::tokens::{join_tokens, tokenize};

fn b(s: &str) -> Vec<u8> {
    s.as_bytes().to_vec()
}

fn toks(ss: &[&str]) -> Vec<Vec<u8>> {
    ss.iter().map(|s| b(s)).collect()
}

fn table(entries: &[(&str, &str, &str)]) -> ConfigTable {
    let mut t = ConfigTable::new();
    for (key, label, raw_args) in entries {
        t.push_entry(ConfigEntry {
            key: b(key),
            label: b(label),
            raw_args: b(raw_args),
        });
    }
    t
}

#[test]
fn tokenize_splits_on_whitespace_runs() {
    let r = tokenize(b"  a \t bb\n ccc ".as_slice());
    assert_eq!(r, toks(&["a", "bb", "ccc"]));
    let e = tokenize(b"".as_slice());
    assert!(e.is_empty());
}

#[test]
fn join_tokens_single_spaces() {
    let r = join_tokens(&toks(&["--crop", "1224:1440:0:0"]));
    assert_eq!(r, b("--crop 1224:1440:0:0"));
    assert_eq!(join_tokens(&Vec::new()), b(""));
}

#[test]
fn normalize_crop_and_legacy_flags() {
    let r = normalize(b("--crop 1920:1080:0:0 -m 1024 -b 8M --max-fps=60").as_slice());
    assert_eq!(r, Some(toks(&["--crop", "1920:1080:0:0", "--max-fps=60"])));
}

#[test]
fn normalize_nothing_left_is_none() {
    assert_eq!(normalize(b("").as_slice()), None);
    assert_eq!(normalize(b("   ").as_slice()), None);
    assert_eq!(normalize(b("-m 1024 -b 8M").as_slice()), None);
    assert_eq!(normalize(b("--video-bit-rate 8M").as_slice()), None);
}

#[test]
fn normalize_legacy_flag_at_end_without_value() {
    assert_eq!(normalize(b("--max-fps=60 -m").as_slice()), Some(toks(&["--max-fps=60"])));
    assert_eq!(normalize(b("-b").as_slice()), None);
}

#[test]
fn normalize_generic_flag_pairs_with_undashed_value() {
    assert_eq!(
        normalize(b("--window-title phone --always-on-top").as_slice()),
        Some(toks(&["--window-title", "phone", "--always-on-top"]))
    );
}

#[test]
fn normalize_idempotent_on_output() {
    let raws = [
        "--crop 1920:1080:0:0 -m 1024 -b 8M --max-fps=60",
        "-m 1024",
        "--window-title phone -b 2M --always-on-top",
        "  a  b   c ",
        "",
    ];
    for raw in raws {
        let first = normalize_tokens(&tokenize(raw.as_bytes()));
        let joined = join_tokens(&first);
        let second = normalize_tokens(&tokenize(joined.as_slice()));
        assert_eq!(second, first);
    }
}

#[test]
fn resolve_exact_match_wins() {
    let t = table(&[("Pixel 7", "Pixel", "-m 1024"), ("default", "Generic", "--crop 1:1:0:0")]);
    let e = t.resolve(b("Pixel 7").as_slice()).expect("exact entry");
    assert_eq!(e.label, b("Pixel"));
    assert_eq!(e.raw_args, b("-m 1024"));
}

#[test]
fn resolve_falls_back_to_default() {
    let t = table(&[("default", "Generic", "--crop 1:1:0:0")]);
    let e = t.resolve(b("Unknown").as_slice()).expect("default entry");
    assert_eq!(e.label, b("Generic"));
}

#[test]
fn resolve_empty_table_is_nothing() {
    let t = table(&[]);
    assert!(t.resolve(b("Unknown").as_slice()).is_none());
}

#[test]
fn choose_config_prefers_primary() {
    let primary = table(&[("default", "A", "")]);
    let fallback = table(&[("default", "B", "")]);
    let t = choose_config(Some(primary), Some(fallback));
    assert_eq!(t.entries[0].label, b("A"));
    let t2 = choose_config(None, Some(table(&[("default", "B", "")])));
    assert_eq!(t2.entries[0].label, b("B"));
    let t3 = choose_config(None, None);
    assert!(t3.entries.is_empty());
}

#[test]
fn parse_devices_keeps_only_device_rows() {
    let out = b("List of devices attached\nabc123\tdevice\nxyz\tunauthorized\nq9\toffline\nd4 device\n");
    let r = parse_devices(out.as_slice());
    assert_eq!(r, toks(&["abc123", "d4"]));
}

#[test]
fn parse_devices_empty_output() {
    assert!(parse_devices(b("").as_slice()).is_empty());
    assert!(parse_devices(b("List of devices attached\n").as_slice()).is_empty());
}

#[test]
fn parse_version_second_token() {
    assert_eq!(parse_version(b("scrcpy 3.3.1 <https://github.com/Genymobile/scrcpy>\n").as_slice()), b("3.3.1"));
    assert_eq!(parse_version(b("scrcpy\n").as_slice()), b("Unknown"));
    assert_eq!(parse_version(b("").as_slice()), unknown_bytes());
}

#[test]
fn trim_strips_both_ends() {
    assert_eq!(trim_bytes(b(" \tPixel 7\r\n").as_slice()), b("Pixel 7"));
    assert_eq!(trim_bytes(b("   ").as_slice()), b(""));
    assert_eq!(trim_bytes(b("x").as_slice()), b("x"));
}

#[test]
fn shrunken_list_resets_selection_and_resolves_once() {
    let t = table(&[("default", "Generic", "--crop 1:1:0:0")]);
    let mut s = SessionState::new();
    assert!(s.apply_enumeration(toks(&["d1", "d2"])));
    assert!(s.needs_resolution());
    s.apply_resolution(b("Unknown").as_slice(), &t);
    s.select(1);
    assert!(s.needs_resolution());
    s.apply_resolution(b("Unknown").as_slice(), &t);
    assert!(!s.needs_resolution());
    // the list shrinks below the selected index
    assert!(s.apply_enumeration(toks(&["d1"])));
    assert_eq!(s.selected, 0);
    assert!(s.needs_resolution());
    s.apply_resolution(b("Unknown").as_slice(), &t);
    // exactly once: nothing further is due
    assert!(!s.needs_resolution());
}

#[test]
fn identical_enumeration_causes_no_rework() {
    let t = table(&[("default", "Generic", "--max-fps=60")]);
    let mut s = SessionState::new();
    // first tick
    assert!(s.apply_enumeration(toks(&["d1", "d2"])));
    assert!(s.needs_resolution());
    s.apply_resolution(b("Unknown").as_slice(), &t);
    let last = s.last_processed;
    // second tick with the identical sequence: no change, no resolution
    assert!(!s.apply_enumeration(toks(&["d1", "d2"])));
    assert!(!s.needs_resolution());
    assert_eq!(s.last_processed, last);
}

#[test]
fn resolution_applies_label_and_normalized_args() {
    let t = table(&[("Pixel 7", "Pixel", "--crop 1224:1440:0:0 -m 1024")]);
    let mut s = SessionState::new();
    s.apply_enumeration(toks(&["serial1"]));
    s.apply_resolution(b("Pixel 7").as_slice(), &t);
    assert_eq!(s.resolved.device_type, b("Pixel"));
    assert_eq!(s.resolved.applied_config, b("--crop 1224:1440:0:0 -m 1024"));
    assert_eq!(s.resolved.args, Some(toks(&["--crop", "1224:1440:0:0"])));
}

#[test]
fn resolution_without_match_is_empty() {
    let t = table(&[("Pixel 7", "Pixel", "-m 1024")]);
    let mut s = SessionState::new();
    s.apply_enumeration(toks(&["serial1"]));
    s.apply_resolution(b("Other").as_slice(), &t);
    assert_eq!(s.resolved.device_type, b(""));
    assert_eq!(s.resolved.applied_config, b(""));
    assert_eq!(s.resolved.args, None);
}

#[test]
fn start_with_no_device_plans_no_spawn() {
    let sup = Supervisor::new();
    let s = SessionState::new();
    assert!(sup.plan_start(&s).is_none());
}

#[test]
fn start_plans_serial_and_args() {
    let t = table(&[("default", "Generic", "--crop 1:1:0:0 extra")]);
    let mut s = SessionState::new();
    s.apply_enumeration(toks(&["serial1"]));
    s.apply_resolution(b("Unknown").as_slice(), &t);
    let mut sup = Supervisor::new();
    let req = sup.plan_start(&s).expect("a spawn is planned");
    assert_eq!(req.serial, b("serial1"));
    assert_eq!(req.args, toks(&["--crop", "1:1:0:0", "extra"]));
    sup.confirm_start(true);
    assert!(sup.plan_start(&s).is_none());
}

#[test]
fn stop_without_live_process_is_noop() {
    let mut sup = Supervisor::new();
    assert!(!sup.stop());
    assert!(!sup.live);
    sup.confirm_start(true);
    assert!(sup.stop());
    assert!(!sup.live);
    assert!(!sup.stop());
}

#[test]
fn parse_devices_with_carriage_returns() {
    let out = b("List of devices attached\r\nabc123\tdevice\r\n");
    assert_eq!(parse_devices(out.as_slice()), toks(&["abc123"]));
}

#[test]
fn normalize_crop_with_attached_value_kept_verbatim() {
    assert_eq!(
        normalize(b("--crop=1224:1440:0:0").as_slice()),
        Some(toks(&["--crop=1224:1440:0:0"]))
    );
}

#[test]
fn normalize_long_bitrate_flag_dropped_with_value() {
    assert_eq!(
        normalize(b("--video-bit-rate 8M --max-fps=60").as_slice()),
        Some(toks(&["--max-fps=60"]))
    );
}

#[test]
fn parse_version_ignores_later_lines() {
    let out = b("scrcpy 2.4 <https://github.com/Genymobile/scrcpy>\nmore words here\n");
    assert_eq!(parse_version(out.as_slice()), b("2.4"));
}

#[test]
fn select_change_triggers_one_resolution() {
    let t = table(&[("default", "Generic", "--max-fps=60")]);
    let mut s = SessionState::new();
    s.apply_enumeration(toks(&["d1", "d2"]));
    s.apply_resolution(b("Unknown").as_slice(), &t);
    assert!(!s.needs_resolution());
    s.select(1);
    assert!(s.needs_resolution());
    s.apply_resolution(b("Unknown").as_slice(), &t);
    assert!(!s.needs_resolution());
    assert_eq!(s.last_processed, 1);
}
