use rucho::chaos::{
    apply_corruption, chaos_decide, chaos_header, decide_corruption, decide_delay, decide_failure,
    failure_body, header_value, ChaosConfig, ChaosPlan, CorruptionKind, DelaySpec, PPM,
};

fn base_config() -> ChaosConfig {
    ChaosConfig {
        failure_enabled: false,
        failure_rate_ppm: PPM,
        failure_codes: vec![503],
        delay_enabled: false,
        delay_rate_ppm: PPM,
        delay_spec: DelaySpec::Fixed(50),
        delay_max_ms: 100,
        corruption_enabled: false,
        corruption_rate_ppm: PPM,
        corruption_kind: CorruptionKind::Truncate,
        inform_header: false,
    }
}

#[test]
fn test_validate_accepts_well_formed_config() {
    let mut cfg = base_config();
    assert!(cfg.validate());
    cfg.failure_enabled = true;
    cfg.delay_enabled = true;
    cfg.corruption_enabled = true;
    assert!(cfg.validate());
}

#[test]
fn test_validate_rejects_rate_out_of_range() {
    let mut cfg = base_config();
    cfg.failure_enabled = true;
    cfg.failure_rate_ppm = 9_999;
    assert!(!cfg.validate());
    cfg.failure_rate_ppm = PPM + 1;
    assert!(!cfg.validate());
}

#[test]
fn test_validate_rejects_empty_failure_codes() {
    let mut cfg = base_config();
    cfg.failure_enabled = true;
    cfg.failure_codes = vec![];
    assert!(!cfg.validate());
}

#[test]
fn test_validate_rejects_non_error_failure_code() {
    let mut cfg = base_config();
    cfg.failure_enabled = true;
    cfg.failure_codes = vec![503, 200];
    assert!(!cfg.validate());
    cfg.failure_codes = vec![600];
    assert!(!cfg.validate());
}

#[test]
fn test_validate_rejects_random_delay_without_bound() {
    let mut cfg = base_config();
    cfg.delay_enabled = true;
    cfg.delay_spec = DelaySpec::Random;
    cfg.delay_max_ms = 0;
    assert!(!cfg.validate());
    cfg.delay_max_ms = 100;
    assert!(cfg.validate());
}

#[test]
fn test_corruption_boundary_roll_is_no_corruption() {
    // A roll exactly at the configured rate must not corrupt: the
    // comparison is strict.
    let mut cfg = base_config();
    cfg.corruption_enabled = true;
    cfg.corruption_rate_ppm = 500_000;
    assert_eq!(decide_corruption(&cfg, 500_000), None);
    assert_eq!(decide_corruption(&cfg, 499_999), Some(CorruptionKind::Truncate));
}

#[test]
fn test_failure_disabled_never_fires() {
    let cfg = base_config();
    for roll in [0u32, 1, 9_999, 500_000, 999_999] {
        assert_eq!(decide_failure(&cfg, roll, 0), None);
    }
    for _ in 0..200 {
        let plan = chaos_decide(&cfg);
        assert!(matches!(plan, ChaosPlan::Pass { delay_ms: None, corruption: None }));
    }
}

#[test]
fn test_certain_failure_short_circuits_with_code() {
    // Scenario: failure mode at rate 1.0 with one code: every request is
    // planned as a synthetic 503 and the handler is never reached.
    let mut cfg = base_config();
    cfg.failure_enabled = true;
    cfg.failure_rate_ppm = PPM;
    cfg.failure_codes = vec![503];
    for _ in 0..200 {
        match chaos_decide(&cfg) {
            ChaosPlan::Fail { code } => assert_eq!(code, 503),
            ChaosPlan::Pass { .. } => panic!("failure at rate 1.0 must always fire"),
        }
    }
}

#[test]
fn test_certain_delay_is_fixed_length() {
    // Scenario: delay mode at rate 1.0 with a fixed 50 ms spec: every
    // request is delayed by exactly 50 ms and nothing else happens to it.
    let mut cfg = base_config();
    cfg.delay_enabled = true;
    cfg.delay_rate_ppm = PPM;
    cfg.delay_spec = DelaySpec::Fixed(50);
    for _ in 0..200 {
        match chaos_decide(&cfg) {
            ChaosPlan::Pass { delay_ms, corruption } => {
                assert_eq!(delay_ms, Some(50));
                assert_eq!(corruption, None);
            },
            ChaosPlan::Fail { .. } => panic!("failure is disabled"),
        }
    }
}

#[test]
fn test_random_delay_respects_bound() {
    let mut cfg = base_config();
    cfg.delay_enabled = true;
    cfg.delay_rate_ppm = PPM;
    cfg.delay_spec = DelaySpec::Random;
    cfg.delay_max_ms = 20;
    for _ in 0..200 {
        match chaos_decide(&cfg) {
            ChaosPlan::Pass { delay_ms, .. } => {
                let d = delay_ms.expect("delay at rate 1.0 must fire");
                assert!(d < 20);
            },
            ChaosPlan::Fail { .. } => panic!("failure is disabled"),
        }
    }
}

#[test]
fn test_certain_truncation_halves_body() {
    // Scenario: corruption mode at rate 1.0 with kind truncate applied to
    // a 10-byte body: exactly the first 5 bytes remain.
    let mut cfg = base_config();
    cfg.corruption_enabled = true;
    cfg.corruption_rate_ppm = PPM;
    cfg.corruption_kind = CorruptionKind::Truncate;
    let kind = match chaos_decide(&cfg) {
        ChaosPlan::Pass { corruption, .. } => corruption.expect("corruption at rate 1.0"),
        ChaosPlan::Fail { .. } => panic!("failure is disabled"),
    };
    assert_eq!(kind, CorruptionKind::Truncate);
    let body: Vec<u8> = vec![0, 1, 2, 3, 4, 5, 6, 7, 8, 9];
    let corrupted = apply_corruption(kind, body);
    assert_eq!(corrupted, vec![0, 1, 2, 3, 4]);
}

#[test]
fn test_truncate_odd_body_rounds_down() {
    let body: Vec<u8> = vec![10, 20, 30];
    assert_eq!(apply_corruption(CorruptionKind::Truncate, body), vec![10]);
    let empty: Vec<u8> = vec![];
    assert_eq!(apply_corruption(CorruptionKind::Truncate, empty), Vec::<u8>::new());
}

#[test]
fn test_empty_corruption_drops_all_bytes() {
    let body: Vec<u8> = vec![1, 2, 3];
    assert_eq!(apply_corruption(CorruptionKind::Empty, body), Vec::<u8>::new());
}

#[test]
fn test_garbage_corruption_keeps_length_and_is_printable() {
    let body: Vec<u8> = vec![0u8; 64];
    let corrupted = apply_corruption(CorruptionKind::Garbage, body);
    assert_eq!(corrupted.len(), 64);
    for b in corrupted {
        assert!((0x21..=0x7E).contains(&b));
    }
}

#[test]
fn test_delay_decision_parses_fixed_value() {
    let mut cfg = base_config();
    cfg.delay_enabled = true;
    cfg.delay_rate_ppm = 700_000;
    assert_eq!(decide_delay(&cfg, 699_999, 7), Some(50));
    assert_eq!(decide_delay(&cfg, 700_000, 7), None);
    cfg.delay_spec = DelaySpec::Random;
    assert_eq!(decide_delay(&cfg, 0, 7), Some(7));
}

#[test]
fn test_failure_body_is_exact_json() {
    assert_eq!(
        failure_body(503),
        "{\"error\": \"Chaos failure injected\", \"chaos\": {\"type\": \"failure\", \"status_code\": 503}}",
    );
    assert_eq!(
        failure_body(404),
        "{\"error\": \"Chaos failure injected\", \"chaos\": {\"type\": \"failure\", \"status_code\": 404}}",
    );
}

#[test]
fn test_header_only_when_informed_and_applied() {
    assert_eq!(chaos_header(false, true, true, true), None);
    assert_eq!(chaos_header(true, false, false, false), None);
    assert_eq!(chaos_header(true, true, false, false), Some("failure".to_string()));
    assert_eq!(chaos_header(true, false, true, true), Some("delay,corruption".to_string()));
}

#[test]
fn test_header_value_lists_applied_effects_in_order() {
    assert_eq!(header_value(true, false, false), "failure");
    assert_eq!(header_value(false, true, false), "delay");
    assert_eq!(header_value(false, false, true), "corruption");
    assert_eq!(header_value(false, true, true), "delay,corruption");
    assert_eq!(header_value(false, false, false), "");
}
