use days_executor::dcqcn::{
    DcqcnArithmeticError, DcqcnController, DcqcnControllerConfig, DcqcnIncreaseStage,
};

#[test]
fn dcqcn_failures_read_as_diagnostics() {
    assert_eq!(
        DcqcnArithmeticError::InvalidConfiguration("rates must be positive").message(),
        "rates must be positive"
    );
    assert_eq!(
        DcqcnArithmeticError::Overflow("rate increase").message(),
        "DCQCN arithmetic overflow in rate increase"
    );
    assert_eq!(
        DcqcnArithmeticError::UnexpectedControlTimer { expected_ns: 50, actual_ns: 40 }.message(),
        "DCQCN control timer fired at 40 ns, expected 50 ns"
    );
}

#[test]
fn a_controller_stays_within_its_bounds_over_an_event_sequence() {
    let config = DcqcnControllerConfig {
        initial_rate_bps: 10_000_000_000,
        minimum_rate_bps: 100_000_000,
        maximum_rate_bps: 10_000_000_000,
        additive_rate_bps: 50_000_000,
        hyper_rate_bps: 100_000_000,
        g_ppb: 3_906_250,
        decrease_ppb: 500_000_000,
        cnp_interval_ns: 50_000,
        control_interval_ns: 55_000,
        increase_byte_threshold: 10_000_000,
    };
    let mut controller = DcqcnController::new(config, 55_000).expect("valid configuration");
    let mut now = 0_u64;
    for step in 0..40_u64 {
        now += 55_000;
        if step % 5 == 0 {
            assert!(controller.on_cnp(now).is_ok());
        }
        assert!(controller.on_bytes_emitted(3_000_000).is_ok());
        assert!(controller.on_control_timer(now).is_ok());
        assert!(controller.current_rate_bps >= config.minimum_rate_bps);
        assert!(controller.current_rate_bps <= config.maximum_rate_bps);
        assert!(controller.target_rate_bps >= config.minimum_rate_bps);
        assert!(controller.target_rate_bps <= config.maximum_rate_bps);
        assert!(controller.alpha_ppb <= 1_000_000_000);
        assert!(controller.stage_steps < 5);
        if controller.stage == DcqcnIncreaseStage::Hyper {
            assert_eq!(controller.stage_steps, 0);
        }
    }
}
