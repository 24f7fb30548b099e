use arco::solver_settings::{
    merge_solver_parameter, parse_setting_key, validate_backend_settings, LpAlgorithm,
    RealSetting, SettingKey, SettingUpdate, SolveOverrides, SolverParameters, SolverSettingError,
    SolverSettings,
};

fn bits(value: f64) -> u64 {
    value.to_bits()
}

fn defaults() -> SolverSettings {
    SolverSettings::new(None, None, None, None, None, None, None, None, SolverParameters::new())
        .unwrap()
}

#[test]
fn solver_settings_rejects_zero_threads() {
    let result =
        SolverSettings::new(None, Some(0), None, None, None, None, None, None, SolverParameters::new());
    assert!(result.is_err());
}

#[test]
fn solver_settings_rejects_negative_tolerance() {
    let result = SolverSettings::new(
        None,
        None,
        Some(bits(-0.5)),
        None,
        None,
        None,
        None,
        None,
        SolverParameters::new(),
    );
    assert!(result.is_err());
}

#[test]
fn solver_settings_rejects_negative_time_limit() {
    let result = SolverSettings::new(
        None,
        None,
        None,
        Some(bits(-1.0)),
        None,
        None,
        None,
        None,
        SolverParameters::new(),
    );
    assert!(result.is_err());
}

#[test]
fn solver_settings_rejects_negative_mip_gap() {
    let result = SolverSettings::new(
        None,
        None,
        None,
        None,
        Some(bits(-0.1)),
        None,
        None,
        None,
        SolverParameters::new(),
    );
    assert!(result.is_err());
}

#[test]
fn solver_settings_accepts_defaults() {
    let result =
        SolverSettings::new(None, None, None, None, None, None, None, None, SolverParameters::new());
    assert!(result.is_ok());
}

#[test]
fn real_settings_must_be_finite_and_not_negative() {
    for (value, ok) in [
        (0.0, true),
        (-0.0, true),
        (1.5, true),
        (f64::MAX, true),
        (f64::MIN_POSITIVE / 2.0, true),
        (-1e-300, false),
        (f64::INFINITY, false),
        (f64::NEG_INFINITY, false),
        (f64::NAN, false),
    ] {
        let result = SolverSettings::new(
            None,
            None,
            None,
            Some(bits(value)),
            None,
            None,
            None,
            None,
            SolverParameters::new(),
        );
        assert_eq!(result.is_ok(), ok, "time limit {value}");
    }
}

#[test]
fn errors_follow_the_order_of_the_checks() {
    let result = SolverSettings::new(
        None,
        Some(0),
        Some(bits(-1.0)),
        None,
        None,
        None,
        None,
        None,
        SolverParameters::new(),
    );
    assert_eq!(result.err(), Some(SolverSettingError::ZeroThreads));
    let result = SolverSettings::new(
        None,
        Some(2),
        Some(bits(f64::NAN)),
        Some(bits(-1.0)),
        None,
        None,
        None,
        None,
        SolverParameters::new(),
    );
    assert_eq!(
        result.err(),
        Some(SolverSettingError::NotNonNegativeFinite(RealSetting::Tolerance))
    );
}

#[test]
fn overrides_replace_only_what_they_set() {
    let base = SolverSettings::new(
        Some(true),
        Some(4),
        None,
        Some(bits(10.0)),
        None,
        Some(1),
        None,
        Some(LpAlgorithm::Barrier),
        SolverParameters::new(),
    )
    .unwrap();
    let none = base.with_overrides(SolveOverrides::default()).unwrap();
    assert_eq!(none.time_limit, Some(bits(10.0)));
    assert_eq!(none.verbosity, Some(1));
    let some = base
        .with_overrides(SolveOverrides {
            log_to_console: Some(false),
            time_limit: Some(bits(2.0)),
            mip_gap: Some(bits(0.01)),
            verbosity: None,
        })
        .unwrap();
    assert_eq!(some.time_limit, Some(bits(2.0)));
    assert_eq!(some.mip_gap, Some(bits(0.01)));
    assert_eq!(some.verbosity, Some(1));
    assert_eq!(some.log_to_console, Some(false));
    assert_eq!(some.threads, Some(4));
    assert_eq!(some.lp_algorithm, Some(LpAlgorithm::Barrier));
    let bad = base.with_overrides(SolveOverrides {
        log_to_console: None,
        time_limit: Some(bits(-5.0)),
        mip_gap: None,
        verbosity: None,
    });
    assert_eq!(
        bad.err(),
        Some(SolverSettingError::NotNonNegativeFinite(RealSetting::TimeLimit))
    );
}

#[test]
fn backends_refuse_unsupported_settings() {
    let mut settings = defaults();
    settings.apply_update(SettingUpdate::Verbosity(Some(2)));
    assert_eq!(
        validate_backend_settings("xpress", &settings),
        Err(SolverSettingError::VerbosityUnsupportedByXpress)
    );
    assert_eq!(validate_backend_settings("highs", &settings), Ok(()));
    let mut settings = defaults();
    settings.apply_update(SettingUpdate::LpAlgorithm(Some(LpAlgorithm::DualSimplex)));
    assert_eq!(
        validate_backend_settings("ipopt", &settings),
        Err(SolverSettingError::LpAlgorithmUnsupportedByIpopt)
    );
    assert_eq!(validate_backend_settings("xpress", &settings), Ok(()));
}

#[test]
fn setting_names_are_recognized() {
    assert_eq!(parse_setting_key("threads"), Ok(SettingKey::Threads));
    assert_eq!(parse_setting_key("time_limit"), Ok(SettingKey::TimeLimit));
    assert_eq!(parse_setting_key("solver"), Ok(SettingKey::Solver));
    assert_eq!(
        parse_setting_key("thread"),
        Err(SolverSettingError::UnknownSetting("thread".to_string()))
    );
}

#[test]
fn solver_parameter_is_set_and_removed() {
    let merged = merge_solver_parameter(None, Some("cbc".to_string()));
    assert_eq!(merged.get("solver"), Some(&"cbc".to_string()));
    assert_eq!(merged.len(), 1);

    let mut params = SolverParameters::new();
    params.insert("presolve".to_string(), "off".to_string());
    params.insert("solver".to_string(), "a".to_string());
    let mut settings =
        SolverSettings::new(None, None, None, None, None, None, None, None, params).unwrap();
    settings.apply_update(SettingUpdate::Solver(Some("b".to_string())));
    assert_eq!(settings.parameters.get("solver"), Some(&"b".to_string()));
    assert_eq!(settings.parameters.len(), 2);
    settings.apply_update(SettingUpdate::Solver(None));
    assert_eq!(settings.parameters.get("solver"), None);
    assert_eq!(settings.parameters.get("presolve"), Some(&"off".to_string()));
    assert_eq!(settings.parameters.len(), 1);
}

#[test]
fn updates_are_validated_afterwards() {
    let mut settings = defaults();
    settings.apply_update(SettingUpdate::Threads(Some(0)));
    assert_eq!(settings.validated().err(), Some(SolverSettingError::ZeroThreads));
    let mut settings = defaults();
    settings.apply_update(SettingUpdate::MipGap(Some(bits(0.5))));
    let settings = settings.validated().unwrap();
    assert_eq!(settings.mip_gap, Some(bits(0.5)));
}
