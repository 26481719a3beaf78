//! Exact fixed-point DCQCN reaction-point controller.
//!
//! Alpha and rational parameters use one part-per-billion scale. Rates remain integral bits per
//! second. Every rational transition evaluates its complete numerator in `u128` and floors once at
//! the final division; no semantic path uses floating point.

use vstd::prelude::*;

use crate::event::{EventKey, FlowId, NodeId};
use crate::aqm_trace::{push_decimal, push_text, spec_decimal};

verus! {

pub const DCQCN_FRACTION_SCALE: u64 = 1_000_000_000;

pub const DCQCN_STAGE_STEPS: u8 = 5;

#[derive(Clone, Copy, Debug, PartialEq, Eq, Structural)]
pub struct DcqcnControllerConfig {
    pub initial_rate_bps: u64,
    pub minimum_rate_bps: u64,
    pub maximum_rate_bps: u64,
    pub additive_rate_bps: u64,
    pub hyper_rate_bps: u64,
    pub g_ppb: u64,
    pub decrease_ppb: u64,
    pub cnp_interval_ns: u64,
    pub control_interval_ns: u64,
    pub increase_byte_threshold: u64,
}

#[derive(Clone, Copy, Debug, PartialEq, Eq, Structural)]
pub enum DcqcnIncreaseStage {
    FastRecovery,
    Additive,
    Hyper,
}

impl DcqcnIncreaseStage {
    pub fn label(self) -> (label: &'static str)
        ensures
            label@ == (match self {
                DcqcnIncreaseStage::FastRecovery => "fast_recovery"@,
                DcqcnIncreaseStage::Additive => "additive"@,
                DcqcnIncreaseStage::Hyper => "hyper"@,
            }),
    {
        match self {
            DcqcnIncreaseStage::FastRecovery => "fast_recovery",
            DcqcnIncreaseStage::Additive => "additive",
            DcqcnIncreaseStage::Hyper => "hyper",
        }
    }
}

#[derive(Clone, Copy, Debug, PartialEq, Eq, Structural)]
pub struct DcqcnController {
    pub config: DcqcnControllerConfig,
    pub alpha_ppb: u64,
    pub current_rate_bps: u64,
    pub target_rate_bps: u64,
    pub cnp_seen: bool,
    pub last_cnp_time_ns: Option<u64>,
    pub stage: DcqcnIncreaseStage,
    pub stage_steps: u8,
    pub bytes_since_increase: u64,
    pub next_control_time_ns: u64,
}

#[derive(Clone, Copy, Debug, PartialEq, Eq, Structural)]
pub enum DcqcnTransitionKind {
    Cnp,
    Control,
    Bytes,
}

impl DcqcnTransitionKind {
    pub fn label(self) -> (label: &'static str)
        ensures
            label@ == (match self {
                DcqcnTransitionKind::Cnp => "cnp"@,
                DcqcnTransitionKind::Control => "control"@,
                DcqcnTransitionKind::Bytes => "bytes"@,
            }),
    {
        match self {
            DcqcnTransitionKind::Cnp => "cnp",
            DcqcnTransitionKind::Control => "control",
            DcqcnTransitionKind::Bytes => "bytes",
        }
    }
}

/// Full-observation exact controller transition.
#[derive(Clone, Copy, Debug, PartialEq, Eq, Structural)]
pub struct DcqcnTransitionRecord {
    pub key: EventKey,
    pub node: NodeId,
    pub flow: FlowId,
    pub kind: DcqcnTransitionKind,
    /// CNP accepted, or control/byte increase opportunity applied.
    pub applied: bool,
    /// Nonzero only for the byte-counter transition.
    pub emitted_bytes: u64,
    pub before: DcqcnController,
    pub after: DcqcnController,
}

#[derive(Clone, Copy, Debug, PartialEq, Eq)]
pub enum DcqcnArithmeticError {
    InvalidConfiguration(&'static str),
    Overflow(&'static str),
    UnexpectedControlTimer { expected_ns: u64, actual_ns: u64 },
}

/// The diagnostic message of a DCQCN arithmetic failure.
pub open spec fn spec_dcqcn_error_text(error: DcqcnArithmeticError) -> Seq<char> {
    match error {
        DcqcnArithmeticError::InvalidConfiguration(message) => message@,
        DcqcnArithmeticError::Overflow(operation) => "DCQCN arithmetic overflow in "@ + operation@,
        DcqcnArithmeticError::UnexpectedControlTimer { expected_ns, actual_ns } =>
            "DCQCN control timer fired at "@ + spec_decimal(actual_ns as nat) + " ns, expected "@
            + spec_decimal(expected_ns as nat) + " ns"@,
    }
}

impl DcqcnArithmeticError {
    /// The diagnostic message of the failure.
    pub fn message(&self) -> (text: String)
        ensures
            text@ == spec_dcqcn_error_text(*self),
    {
        let mut text = String::new();
        match self {
            DcqcnArithmeticError::InvalidConfiguration(message) => {
                push_text(&mut text, message);
            },
            DcqcnArithmeticError::Overflow(operation) => {
                push_text(&mut text, "DCQCN arithmetic overflow in ");
                push_text(&mut text, operation);
            },
            DcqcnArithmeticError::UnexpectedControlTimer { expected_ns, actual_ns } => {
                push_text(&mut text, "DCQCN control timer fired at ");
                push_decimal(&mut text, *actual_ns);
                push_text(&mut text, " ns, expected ");
                push_decimal(&mut text, *expected_ns);
                push_text(&mut text, " ns");
            },
        }
        assert(text@ =~= spec_dcqcn_error_text(*self));
        text
    }
}

/// The configuration constraints every controller is built under.
pub open spec fn spec_config_valid(config: DcqcnControllerConfig) -> bool {
    &&& config.minimum_rate_bps > 0
    &&& config.minimum_rate_bps <= config.initial_rate_bps
    &&& config.initial_rate_bps <= config.maximum_rate_bps
    &&& config.g_ppb <= DCQCN_FRACTION_SCALE
    &&& config.decrease_ppb <= DCQCN_FRACTION_SCALE
    &&& config.control_interval_ns > 0
    &&& config.increase_byte_threshold > 0
}

impl DcqcnControllerConfig {
    /// Accepts exactly the configurations that satisfy `spec_config_valid`.
    pub fn validate(self) -> (result: Result<(), DcqcnArithmeticError>)
        ensures
            result is Ok <==> spec_config_valid(self),
            result is Err ==> result->Err_0 is InvalidConfiguration,
    {
        if self.minimum_rate_bps == 0 {
            return Err(
                DcqcnArithmeticError::InvalidConfiguration("DCQCN minimum rate must be positive"),
            );
        }
        if self.minimum_rate_bps > self.initial_rate_bps || self.initial_rate_bps
            > self.maximum_rate_bps {
            return Err(
                DcqcnArithmeticError::InvalidConfiguration(
                    "DCQCN rates must satisfy minimum <= initial <= maximum",
                ),
            );
        }
        if self.g_ppb > DCQCN_FRACTION_SCALE || self.decrease_ppb > DCQCN_FRACTION_SCALE {
            return Err(
                DcqcnArithmeticError::InvalidConfiguration(
                    "DCQCN g and decrease factors must be at most the ppb scale",
                ),
            );
        }
        if self.control_interval_ns == 0 {
            return Err(
                DcqcnArithmeticError::InvalidConfiguration(
                    "DCQCN control interval must be positive",
                ),
            );
        }
        if self.increase_byte_threshold == 0 {
            return Err(
                DcqcnArithmeticError::InvalidConfiguration(
                    "DCQCN increase byte threshold must be positive",
                ),
            );
        }
        Ok(())
    }
}

/// Alpha after one admitted CNP: `((scale - g) * alpha + g * scale) / scale`.
pub open spec fn spec_cnp_alpha(c: DcqcnController) -> int {
    ((DCQCN_FRACTION_SCALE - c.config.g_ppb) * c.alpha_ppb + c.config.g_ppb * DCQCN_FRACTION_SCALE)
        / (DCQCN_FRACTION_SCALE as int)
}

/// The multiplicative decrease `current * (scale^2 - decrease * alpha) / scale^2`.
pub open spec fn spec_cnp_rate(current: int, decrease: int, alpha: int) -> int {
    current * (DCQCN_FRACTION_SCALE * DCQCN_FRACTION_SCALE - decrease * alpha) / (
    DCQCN_FRACTION_SCALE * DCQCN_FRACTION_SCALE)
}

/// Alpha after one control-timer decay: `(scale - g) * alpha / scale`.
pub open spec fn spec_decayed_alpha(c: DcqcnController) -> int {
    (DCQCN_FRACTION_SCALE - c.config.g_ppb) * c.alpha_ppb / (DCQCN_FRACTION_SCALE as int)
}

pub open spec fn spec_max(a: int, b: int) -> int {
    if a >= b { a } else { b }
}

pub open spec fn spec_min(a: int, b: int) -> int {
    if a <= b { a } else { b }
}

pub open spec fn spec_clamp(value: int, low: int, high: int) -> int {
    spec_min(spec_max(value, low), high)
}

/// `min(saturating_add(target, step), maximum)`.
pub open spec fn spec_raised_target(target: u64, step: u64, maximum: u64) -> u64 {
    let sum = if target + step > u64::MAX { u64::MAX as int } else { target + step };
    spec_min(sum, maximum as int) as u64
}

/// The rate after averaging with the target and clamping into the configured range.
pub open spec fn spec_averaged(c: DcqcnController) -> DcqcnController {
    DcqcnController {
        current_rate_bps: spec_clamp(
            (c.current_rate_bps + c.target_rate_bps) / 2,
            c.config.minimum_rate_bps as int,
            c.config.maximum_rate_bps as int,
        ) as u64,
        ..c
    }
}

/// The outcome of one staged increase opportunity.
pub open spec fn spec_increase(c: DcqcnController) -> Result<DcqcnController, DcqcnArithmeticError> {
    match c.stage {
        DcqcnIncreaseStage::FastRecovery => {
            let averaged = spec_averaged(c);
            if c.stage_steps == u8::MAX {
                Err(DcqcnArithmeticError::Overflow("fast-recovery stage counter"))
            } else if c.stage_steps + 1 == DCQCN_STAGE_STEPS {
                Ok(DcqcnController { stage: DcqcnIncreaseStage::Additive, stage_steps: 0, ..averaged })
            } else {
                Ok(DcqcnController { stage_steps: (c.stage_steps + 1) as u8, ..averaged })
            }
        },
        DcqcnIncreaseStage::Additive => {
            let raised = DcqcnController {
                target_rate_bps: spec_raised_target(
                    c.target_rate_bps,
                    c.config.additive_rate_bps,
                    c.config.maximum_rate_bps,
                ),
                ..c
            };
            let averaged = spec_averaged(raised);
            if c.stage_steps == u8::MAX {
                Err(DcqcnArithmeticError::Overflow("additive stage counter"))
            } else if c.stage_steps + 1 == DCQCN_STAGE_STEPS {
                Ok(DcqcnController { stage: DcqcnIncreaseStage::Hyper, stage_steps: 0, ..averaged })
            } else {
                Ok(DcqcnController { stage_steps: (c.stage_steps + 1) as u8, ..averaged })
            }
        },
        DcqcnIncreaseStage::Hyper => {
            let raised = DcqcnController {
                target_rate_bps: spec_raised_target(
                    c.target_rate_bps,
                    c.config.hyper_rate_bps,
                    c.config.maximum_rate_bps,
                ),
                ..c
            };
            Ok(spec_averaged(raised))
        },
    }
}

/// The controller state that a failed increase leaves behind (the averaged rate is committed
/// before the stage counter overflows).
pub open spec fn spec_increase_residue(c: DcqcnController) -> DcqcnController {
    match c.stage {
        DcqcnIncreaseStage::FastRecovery => spec_averaged(c),
        DcqcnIncreaseStage::Additive => spec_averaged(
            DcqcnController {
                target_rate_bps: spec_raised_target(
                    c.target_rate_bps,
                    c.config.additive_rate_bps,
                    c.config.maximum_rate_bps,
                ),
                ..c
            },
        ),
        DcqcnIncreaseStage::Hyper => c,
    }
}

pub open spec fn spec_on_cnp(c: DcqcnController, now_ns: u64) -> (
    DcqcnController,
    Result<bool, DcqcnArithmeticError>,
) {
    let gate: Option<int> = match c.last_cnp_time_ns {
        None => None,
        Some(last) => Some(last + c.config.cnp_interval_ns),
    };
    if gate matches Some(earliest) && earliest > u64::MAX {
        (c, Err(DcqcnArithmeticError::Overflow("CNP interval deadline")))
    } else if gate matches Some(earliest) && now_ns < earliest {
        (c, Ok(false))
    } else if spec_cnp_alpha(c) > u64::MAX {
        (c, Err(DcqcnArithmeticError::Overflow("alpha projection")))
    } else {
        let alpha = spec_cnp_alpha(c);
        let staged = DcqcnController {
            alpha_ppb: alpha as u64,
            target_rate_bps: c.current_rate_bps,
            ..c
        };
        if c.config.decrease_ppb * alpha > DCQCN_FRACTION_SCALE * DCQCN_FRACTION_SCALE {
            (staged, Err(DcqcnArithmeticError::Overflow("rate decrease subtraction")))
        } else {
            let rate = spec_cnp_rate(c.current_rate_bps as int, c.config.decrease_ppb as int, alpha);
            (
                DcqcnController {
                    current_rate_bps: spec_max(rate, c.config.minimum_rate_bps as int) as u64,
                    cnp_seen: true,
                    last_cnp_time_ns: Some(now_ns),
                    stage: DcqcnIncreaseStage::FastRecovery,
                    stage_steps: 0,
                    bytes_since_increase: 0,
                    ..staged
                },
                Ok(true),
            )
        }
    }
}

/// Runs one increase opportunity and reports it as an applied transition.
pub open spec fn spec_applied_increase(c: DcqcnController) -> (
    DcqcnController,
    Result<bool, DcqcnArithmeticError>,
) {
    match spec_increase(c) {
        Ok(next) => (next, Ok(true)),
        Err(error) => (spec_increase_residue(c), Err(error)),
    }
}

pub open spec fn spec_on_control_timer(c: DcqcnController, now_ns: u64) -> (
    DcqcnController,
    Result<bool, DcqcnArithmeticError>,
) {
    if now_ns != c.next_control_time_ns {
        (
            c,
            Err(
                DcqcnArithmeticError::UnexpectedControlTimer {
                    expected_ns: c.next_control_time_ns,
                    actual_ns: now_ns,
                },
            ),
        )
    } else if now_ns + c.config.control_interval_ns > u64::MAX {
        (c, Err(DcqcnArithmeticError::Overflow("control timer successor")))
    } else {
        let ticked = DcqcnController {
            next_control_time_ns: (now_ns + c.config.control_interval_ns) as u64,
            ..c
        };
        if c.cnp_seen {
            (DcqcnController { cnp_seen: false, ..ticked }, Ok(false))
        } else {
            spec_applied_increase(
                DcqcnController { alpha_ppb: spec_decayed_alpha(c) as u64, ..ticked },
            )
        }
    }
}

pub open spec fn spec_on_bytes_emitted(c: DcqcnController, bytes: u64) -> (
    DcqcnController,
    Result<bool, DcqcnArithmeticError>,
) {
    if c.bytes_since_increase + bytes > u64::MAX {
        (c, Err(DcqcnArithmeticError::Overflow("increase byte counter")))
    } else {
        let counted = DcqcnController {
            bytes_since_increase: (c.bytes_since_increase + bytes) as u64,
            ..c
        };
        if c.cnp_seen || counted.bytes_since_increase < c.config.increase_byte_threshold {
            (counted, Ok(false))
        } else {
            spec_applied_increase(DcqcnController { bytes_since_increase: 0, ..counted })
        }
    }
}

impl DcqcnController {
    /// Steady-state well-formedness: a valid configuration, alpha within the ppb scale, both rates
    /// inside `[minimum, maximum]`, a stage counter below the stage length, and no counted steps in
    /// the hyper-increase stage, which repeats without end.
    pub open spec fn wf(self) -> bool {
        &&& spec_config_valid(self.config)
        &&& self.alpha_ppb <= DCQCN_FRACTION_SCALE
        &&& self.config.minimum_rate_bps <= self.current_rate_bps <= self.config.maximum_rate_bps
        &&& self.config.minimum_rate_bps <= self.target_rate_bps <= self.config.maximum_rate_bps
        &&& self.stage_steps < DCQCN_STAGE_STEPS
        &&& self.stage is Hyper ==> self.stage_steps == 0
    }

    /// What every method needs in order not to panic: `g <= scale` (the retained alpha weight is
    /// an unsigned difference) and `minimum <= maximum` (the rate clamp).
    pub open spec fn arithmetic_ready(self) -> bool {
        &&& self.config.g_ppb <= DCQCN_FRACTION_SCALE
        &&& self.config.minimum_rate_bps <= self.config.maximum_rate_bps
    }

    pub open spec fn spec_new(config: DcqcnControllerConfig, first_control_time_ns: u64) -> Self {
        DcqcnController {
            config,
            alpha_ppb: 0,
            current_rate_bps: config.initial_rate_bps,
            target_rate_bps: config.initial_rate_bps,
            cnp_seen: false,
            last_cnp_time_ns: None,
            stage: DcqcnIncreaseStage::Hyper,
            stage_steps: 0,
            bytes_since_increase: 0,
            next_control_time_ns: first_control_time_ns,
        }
    }

    /// Builds a controller at its initial rate in the hyper-increase stage.
    pub fn new(config: DcqcnControllerConfig, first_control_time_ns: u64) -> (result: Result<
        DcqcnController,
        DcqcnArithmeticError,
    >)
        ensures
            !spec_config_valid(config) ==> result is Err && result->Err_0 is InvalidConfiguration,
            spec_config_valid(config) && first_control_time_ns + config.control_interval_ns
                > u64::MAX ==> result is Err && result->Err_0 is Overflow,
            spec_config_valid(config) && first_control_time_ns + config.control_interval_ns
                <= u64::MAX ==> result == Ok::<DcqcnController, DcqcnArithmeticError>(
                Self::spec_new(config, first_control_time_ns),
            ),
            result matches Ok(controller) ==> controller.wf(),
    {
        match config.validate() {
            Err(error) => return Err(error),
            Ok(()) => {},
        }
        if first_control_time_ns.checked_add(config.control_interval_ns).is_none() {
            return Err(DcqcnArithmeticError::Overflow("control timer deadline"));
        }
        Ok(
            DcqcnController {
                config,
                alpha_ppb: 0,
                current_rate_bps: config.initial_rate_bps,
                target_rate_bps: config.initial_rate_bps,
                cnp_seen: false,
                last_cnp_time_ns: None,
                stage: DcqcnIncreaseStage::Hyper,
                stage_steps: 0,
                bytes_since_increase: 0,
                next_control_time_ns: first_control_time_ns,
            },
        )
    }
}

impl DcqcnController {
    /// Applies one source-side interval-gated CNP. `Ok(false)` is an exact early-CNP no-op.
    pub fn on_cnp(&mut self, now_ns: u64) -> (result: Result<bool, DcqcnArithmeticError>)
        requires
            old(self).config.g_ppb <= DCQCN_FRACTION_SCALE,
        ensures
            (*final(self), result) == spec_on_cnp(*old(self), now_ns),
            old(self).wf() ==> final(self).wf(),
    {
        proof {
            if self.wf() {
                lemma_cnp_preserves_wf(*self, now_ns);
            }
        }
        if let Some(last_ns) = self.last_cnp_time_ns {
            let earliest_ns = match last_ns.checked_add(self.config.cnp_interval_ns) {
                None => return Err(DcqcnArithmeticError::Overflow("CNP interval deadline")),
                Some(earliest) => earliest,
            };
            if now_ns < earliest_ns {
                return Ok(false);
            }
        }
        let ghost old_self = *self;
        let scale: u128 = DCQCN_FRACTION_SCALE as u128;
        let weight: u128 = (DCQCN_FRACTION_SCALE - self.config.g_ppb) as u128;
        let alpha: u128 = self.alpha_ppb as u128;
        assert(weight * alpha <= 1_000_000_000u128 * 0xffff_ffff_ffff_ffffu128) by (nonlinear_arith)
            requires
                weight <= 1_000_000_000,
                alpha <= 0xffff_ffff_ffff_ffffu128,
        ;
        let retained: u128 = weight * alpha;
        let marked: u128 = (self.config.g_ppb as u128) * scale;
        let next_alpha: u128 = (retained + marked) / scale;
        if next_alpha > u64::MAX as u128 {
            return Err(DcqcnArithmeticError::Overflow("alpha projection"));
        }
        self.alpha_ppb = next_alpha as u64;
        self.target_rate_bps = self.current_rate_bps;
        let scale_squared: u128 = scale * scale;
        let decrease: u128 = self.config.decrease_ppb as u128;
        assert(decrease * next_alpha <= 0xffff_ffff_ffff_ffffu128 * 0xffff_ffff_ffff_ffffu128)
            by (nonlinear_arith)
            requires
                decrease <= 0xffff_ffff_ffff_ffffu128,
                next_alpha <= 0xffff_ffff_ffff_ffffu128,
        ;
        let reduction: u128 = decrease * next_alpha;
        if reduction > scale_squared {
            return Err(DcqcnArithmeticError::Overflow("rate decrease subtraction"));
        }
        let retained_factor: u128 = scale_squared - reduction;
        let current: u128 = self.current_rate_bps as u128;
        assert(current * retained_factor <= 0xffff_ffff_ffff_ffffu128 * 1_000_000_000_000_000_000u128)
            by (nonlinear_arith)
            requires
                current <= 0xffff_ffff_ffff_ffffu128,
                retained_factor <= 1_000_000_000_000_000_000u128,
        ;
        let decreased: u128 = current * retained_factor / scale_squared;
        assert(decreased <= current) by (nonlinear_arith)
            requires
                decreased == current * retained_factor / (scale_squared as int),
                retained_factor <= scale_squared,
                scale_squared > 0,
        ;
        let decreased_rate: u64 = decreased as u64;
        self.current_rate_bps = if decreased_rate >= self.config.minimum_rate_bps {
            decreased_rate
        } else {
            self.config.minimum_rate_bps
        };
        self.cnp_seen = true;
        self.last_cnp_time_ns = Some(now_ns);
        self.stage = DcqcnIncreaseStage::FastRecovery;
        self.stage_steps = 0;
        self.bytes_since_increase = 0;
        Ok(true)
    }

    /// Applies the canonical periodic controller tick.
    ///
    /// The first tick after an admitted CNP only clears `cnp_seen`. Later ticks decay alpha and
    /// advance exactly one staged rate-increase opportunity.
    pub fn on_control_timer(&mut self, now_ns: u64) -> (result: Result<bool, DcqcnArithmeticError>)
        requires
            old(self).arithmetic_ready(),
        ensures
            (*final(self), result) == spec_on_control_timer(*old(self), now_ns),
            old(self).wf() ==> final(self).wf(),
    {
        proof {
            if self.wf() {
                lemma_control_preserves_wf(*self, now_ns);
            }
        }
        if now_ns != self.next_control_time_ns {
            return Err(
                DcqcnArithmeticError::UnexpectedControlTimer {
                    expected_ns: self.next_control_time_ns,
                    actual_ns: now_ns,
                },
            );
        }
        self.next_control_time_ns = match now_ns.checked_add(self.config.control_interval_ns) {
            None => return Err(DcqcnArithmeticError::Overflow("control timer successor")),
            Some(next) => next,
        };
        if self.cnp_seen {
            self.cnp_seen = false;
            return Ok(false);
        }
        let weight: u128 = (DCQCN_FRACTION_SCALE - self.config.g_ppb) as u128;
        let alpha: u128 = self.alpha_ppb as u128;
        assert(weight * alpha <= 1_000_000_000u128 * 0xffff_ffff_ffff_ffffu128) by (nonlinear_arith)
            requires
                weight <= 1_000_000_000,
                alpha <= 0xffff_ffff_ffff_ffffu128,
        ;
        let decayed: u128 = weight * alpha / (DCQCN_FRACTION_SCALE as u128);
        assert(decayed <= alpha) by (nonlinear_arith)
            requires
                decayed == weight * alpha / 1_000_000_000int,
                weight <= 1_000_000_000,
        ;
        self.alpha_ppb = decayed as u64;
        match self.apply_increase() {
            Err(error) => Err(error),
            Ok(()) => Ok(true),
        }
    }

    /// Charges emitted data bytes and applies one independent byte-triggered increase opportunity.
    pub fn on_bytes_emitted(&mut self, bytes: u64) -> (result: Result<bool, DcqcnArithmeticError>)
        requires
            old(self).arithmetic_ready(),
        ensures
            (*final(self), result) == spec_on_bytes_emitted(*old(self), bytes),
            old(self).wf() ==> final(self).wf(),
    {
        proof {
            if self.wf() {
                lemma_bytes_preserve_wf(*self, bytes);
            }
        }
        self.bytes_since_increase = match self.bytes_since_increase.checked_add(bytes) {
            None => return Err(DcqcnArithmeticError::Overflow("increase byte counter")),
            Some(total) => total,
        };
        if self.cnp_seen || self.bytes_since_increase < self.config.increase_byte_threshold {
            return Ok(false);
        }
        self.bytes_since_increase = 0;
        match self.apply_increase() {
            Err(error) => Err(error),
            Ok(()) => Ok(true),
        }
    }

    fn apply_increase(&mut self) -> (result: Result<(), DcqcnArithmeticError>)
        requires
            old(self).arithmetic_ready(),
        ensures
            match spec_increase(*old(self)) {
                Ok(next) => result is Ok && *final(self) == next,
                Err(error) => result == Err::<(), DcqcnArithmeticError>(error) && *final(self)
                    == spec_increase_residue(*old(self)),
            },
    {
        match self.stage {
            DcqcnIncreaseStage::FastRecovery => {
                self.average_with_target();
                self.stage_steps = match self.stage_steps.checked_add(1) {
                    None => return Err(
                        DcqcnArithmeticError::Overflow("fast-recovery stage counter"),
                    ),
                    Some(steps) => steps,
                };
                if self.stage_steps == DCQCN_STAGE_STEPS {
                    self.stage = DcqcnIncreaseStage::Additive;
                    self.stage_steps = 0;
                }
            },
            DcqcnIncreaseStage::Additive => {
                let raised = self.target_rate_bps.saturating_add(self.config.additive_rate_bps);
                self.target_rate_bps = if raised <= self.config.maximum_rate_bps {
                    raised
                } else {
                    self.config.maximum_rate_bps
                };
                self.average_with_target();
                self.stage_steps = match self.stage_steps.checked_add(1) {
                    None => return Err(DcqcnArithmeticError::Overflow("additive stage counter")),
                    Some(steps) => steps,
                };
                if self.stage_steps == DCQCN_STAGE_STEPS {
                    self.stage = DcqcnIncreaseStage::Hyper;
                    self.stage_steps = 0;
                }
            },
            DcqcnIncreaseStage::Hyper => {
                let raised = self.target_rate_bps.saturating_add(self.config.hyper_rate_bps);
                self.target_rate_bps = if raised <= self.config.maximum_rate_bps {
                    raised
                } else {
                    self.config.maximum_rate_bps
                };
                self.average_with_target();
            },
        }
        Ok(())
    }

    fn average_with_target(&mut self)
        requires
            old(self).arithmetic_ready(),
        ensures
            *final(self) == spec_averaged(*old(self)),
    {
        let sum: u128 = (self.current_rate_bps as u128) + (self.target_rate_bps as u128);
        let average: u64 = (sum / 2) as u64;
        self.current_rate_bps = if average < self.config.minimum_rate_bps {
            self.config.minimum_rate_bps
        } else if average > self.config.maximum_rate_bps {
            self.config.maximum_rate_bps
        } else {
            average
        };
    }
}

proof fn lemma_averaged_wf(c: DcqcnController)
    requires
        c.wf(),
    ensures
        spec_averaged(c).wf(),
{
}

/// Every increase opportunity of a well-formed controller succeeds and keeps it well-formed.
proof fn lemma_increase_preserves_wf(c: DcqcnController)
    requires
        c.wf(),
    ensures
        spec_increase(c) is Ok,
        spec_increase(c)->Ok_0.wf(),
{
}

proof fn lemma_cnp_alpha_bounded(c: DcqcnController)
    requires
        c.wf(),
    ensures
        spec_cnp_alpha(c) <= DCQCN_FRACTION_SCALE,
        c.config.decrease_ppb * spec_cnp_alpha(c) <= DCQCN_FRACTION_SCALE * DCQCN_FRACTION_SCALE,
        spec_cnp_rate(c.current_rate_bps as int, c.config.decrease_ppb as int, spec_cnp_alpha(c))
            <= c.current_rate_bps,
{
    let s = DCQCN_FRACTION_SCALE as int;
    let g = c.config.g_ppb as int;
    let a = c.alpha_ppb as int;
    let d = c.config.decrease_ppb as int;
    let r = c.current_rate_bps as int;
    assert((s - g) * a + g * s <= s * s) by (nonlinear_arith)
        requires
            0 <= g <= s,
            0 <= a <= s,
    ;
    assert(((s - g) * a + g * s) / s <= s) by (nonlinear_arith)
        requires
            (s - g) * a + g * s <= s * s,
            s > 0,
            (s - g) * a + g * s >= 0,
    ;
    let alpha = spec_cnp_alpha(c);
    assert(alpha >= 0) by (nonlinear_arith)
        requires
            alpha == ((s - g) * a + g * s) / s,
            0 <= g <= s,
            0 <= a,
            s > 0,
    ;
    assert(d * alpha <= s * s) by (nonlinear_arith)
        requires
            0 <= d <= s,
            0 <= alpha <= s,
    ;
    assert(r * (s * s - d * alpha) / (s * s) <= r) by (nonlinear_arith)
        requires
            0 <= d * alpha <= s * s,
            r >= 0,
            s > 0,
    ;
}

proof fn lemma_cnp_preserves_wf(c: DcqcnController, now_ns: u64)
    requires
        c.wf(),
    ensures
        spec_on_cnp(c, now_ns).0.wf(),
        spec_on_cnp(c, now_ns).1 is Err ==> spec_on_cnp(c, now_ns).1->Err_0 == DcqcnArithmeticError::Overflow("CNP interval deadline"),
{
    lemma_cnp_alpha_bounded(c);
    let alpha = spec_cnp_alpha(c);
    let rate = spec_cnp_rate(c.current_rate_bps as int, c.config.decrease_ppb as int, alpha);
    let s = DCQCN_FRACTION_SCALE as int;
    assert(rate >= 0) by (nonlinear_arith)
        requires
            rate == c.current_rate_bps * (s * s - c.config.decrease_ppb * alpha) / (s * s),
            c.config.decrease_ppb * alpha <= s * s,
            s > 0,
    ;
}

proof fn lemma_control_preserves_wf(c: DcqcnController, now_ns: u64)
    requires
        c.wf(),
    ensures
        spec_on_control_timer(c, now_ns).0.wf(),
        spec_on_control_timer(c, now_ns).1 is Err ==> (now_ns != c.next_control_time_ns
            || now_ns + c.config.control_interval_ns > u64::MAX),
{
    let s = DCQCN_FRACTION_SCALE as int;
    let g = c.config.g_ppb as int;
    let a = c.alpha_ppb as int;
    assert((s - g) * a / s <= a && (s - g) * a / s >= 0) by (nonlinear_arith)
        requires
            0 <= g <= s,
            0 <= a,
            s > 0,
    ;
    if now_ns == c.next_control_time_ns && now_ns + c.config.control_interval_ns <= u64::MAX
        && !c.cnp_seen {
        let ticked = DcqcnController {
            next_control_time_ns: (now_ns + c.config.control_interval_ns) as u64,
            ..c
        };
        let decayed = DcqcnController { alpha_ppb: spec_decayed_alpha(c) as u64, ..ticked };
        lemma_increase_preserves_wf(decayed);
    }
}

proof fn lemma_bytes_preserve_wf(c: DcqcnController, bytes: u64)
    requires
        c.wf(),
    ensures
        spec_on_bytes_emitted(c, bytes).0.wf(),
        spec_on_bytes_emitted(c, bytes).1 is Err ==> c.bytes_since_increase + bytes > u64::MAX,
{
    if c.bytes_since_increase + bytes <= u64::MAX {
        let counted = DcqcnController {
            bytes_since_increase: (c.bytes_since_increase + bytes) as u64,
            ..c
        };
        lemma_increase_preserves_wf(DcqcnController { bytes_since_increase: 0, ..counted });
    }
}

/// Law: the DCQCN transitions keep a well-formed controller well-formed. A CNP, a control tick or
/// a byte charge never moves the current or target rate outside `[minimum, maximum]`, never lets
/// alpha exceed the ppb scale, keeps the stage counter below the stage length and at zero in the
/// hyper-increase stage, and can fail only on a timestamp or byte-counter overflow (or a
/// control tick at the wrong instant).
pub proof fn law_transitions_preserve_wf(c: DcqcnController, now_ns: u64, bytes: u64)
    requires
        c.wf(),
    ensures
        spec_on_cnp(c, now_ns).0.wf(),
        spec_on_control_timer(c, now_ns).0.wf(),
        spec_on_bytes_emitted(c, bytes).0.wf(),
        spec_on_cnp(c, now_ns).1 is Err ==> spec_on_cnp(c, now_ns).1->Err_0
            == DcqcnArithmeticError::Overflow("CNP interval deadline"),
        spec_on_control_timer(c, now_ns).1 is Err ==> (now_ns != c.next_control_time_ns
            || now_ns + c.config.control_interval_ns > u64::MAX),
        spec_on_bytes_emitted(c, bytes).1 is Err ==> c.bytes_since_increase + bytes > u64::MAX,
{
    lemma_cnp_preserves_wf(c, now_ns);
    lemma_control_preserves_wf(c, now_ns);
    lemma_bytes_preserve_wf(c, bytes);
}


/// One event delivered to a DCQCN controller.
#[derive(Clone, Copy, Debug, PartialEq, Eq, Structural)]
pub enum DcqcnEvent {
    Cnp(u64),
    ControlTimer(u64),
    BytesEmitted(u64),
}

/// The controller after delivering the first `upto` events in order, each through its method.
pub open spec fn spec_after_events(c: DcqcnController, events: Seq<DcqcnEvent>, upto: int) -> DcqcnController
    decreases upto,
{
    if upto <= 0 {
        c
    } else {
        let before = spec_after_events(c, events, upto - 1);
        match events[upto - 1] {
            DcqcnEvent::Cnp(now_ns) => spec_on_cnp(before, now_ns).0,
            DcqcnEvent::ControlTimer(now_ns) => spec_on_control_timer(before, now_ns).0,
            DcqcnEvent::BytesEmitted(bytes) => spec_on_bytes_emitted(before, bytes).0,
        }
    }
}

/// A controller built by `new` stays well-formed over any sequence of CNPs, control ticks and
/// emitted bytes: rates stay within the configured bounds, alpha at most one, stage steps below
/// the stage limit, and the Hyper stage with no steps counted.
pub proof fn law_event_sequences_preserve_wf(
    config: DcqcnControllerConfig,
    first_control_time_ns: u64,
    events: Seq<DcqcnEvent>,
)
    requires
        spec_config_valid(config),
    ensures
        forall|upto: int|
            0 <= upto <= events.len() ==> #[trigger] spec_after_events(
                DcqcnController::spec_new(config, first_control_time_ns),
                events,
                upto,
            ).wf(),
{
    let start = DcqcnController::spec_new(config, first_control_time_ns);
    assert forall|upto: int| 0 <= upto <= events.len() implies #[trigger] spec_after_events(
        start,
        events,
        upto,
    ).wf() by {
        lemma_after_events_wf(start, events, upto);
    }
}

proof fn lemma_after_events_wf(c: DcqcnController, events: Seq<DcqcnEvent>, upto: int)
    requires
        c.wf(),
        0 <= upto <= events.len(),
    ensures
        spec_after_events(c, events, upto).wf(),
    decreases upto,
{
    if upto > 0 {
        lemma_after_events_wf(c, events, upto - 1);
        let before = spec_after_events(c, events, upto - 1);
        match events[upto - 1] {
            DcqcnEvent::Cnp(now_ns) => lemma_cnp_preserves_wf(before, now_ns),
            DcqcnEvent::ControlTimer(now_ns) => lemma_control_preserves_wf(before, now_ns),
            DcqcnEvent::BytesEmitted(bytes) => lemma_bytes_preserve_wf(before, bytes),
        }
    }
}


/// An admitted CNP raises alpha toward one by the gain `g` and cuts the rate multiplicatively:
/// the new alpha is `((1e9 - g) * alpha + g * 1e9) / 1e9`, the target keeps the rate the CNP
/// found, and the rate becomes `rate * (1e18 - decrease * alpha') / 1e18`, never below the
/// minimum. A CNP with a positive cut therefore lowers a rate above the minimum, and never
/// raises a rate. A CNP inside the interval since the last admitted one changes nothing; any
/// other CNP whose arithmetic fits is admitted.
pub proof fn law_cnp_cuts_the_rate(c: DcqcnController, now_ns: u64)
    requires
        c.config.g_ppb <= DCQCN_FRACTION_SCALE,
    ensures
        ({
            let next = spec_on_cnp(c, now_ns).0;
            let result = spec_on_cnp(c, now_ns).1;
            let scale = 1_000_000_000int;
            let alpha = ((scale - c.config.g_ppb) * c.alpha_ppb + c.config.g_ppb * scale) / scale;
            let cut = c.current_rate_bps * (scale * scale - c.config.decrease_ppb * alpha) / (scale
                * scale);
            let floor = c.config.minimum_rate_bps as int;
            let open = match c.last_cnp_time_ns {
                None => true,
                Some(last) => last + c.config.cnp_interval_ns <= u64::MAX && now_ns >= last
                    + c.config.cnp_interval_ns,
            };
            &&& (result == Ok::<bool, DcqcnArithmeticError>(true) ==> {
                &&& next.alpha_ppb == alpha
                &&& next.target_rate_bps == c.current_rate_bps
                &&& next.current_rate_bps == if cut >= floor {
                    cut
                } else {
                    floor
                }
                &&& next.current_rate_bps <= if c.current_rate_bps >= floor {
                    c.current_rate_bps as int
                } else {
                    floor
                }
                &&& (c.config.decrease_ppb * alpha > 0 && c.current_rate_bps > floor
                    ==> next.current_rate_bps < c.current_rate_bps)
                &&& next.cnp_seen
                &&& next.last_cnp_time_ns == Some(now_ns)
                &&& next.stage is FastRecovery
                &&& next.stage_steps == 0
                &&& next.bytes_since_increase == 0
                &&& next.config == c.config
                &&& next.next_control_time_ns == c.next_control_time_ns
            })
            &&& (open && alpha <= u64::MAX && c.config.decrease_ppb * alpha <= scale * scale
                ==> result == Ok::<bool, DcqcnArithmeticError>(true))
            &&& (!open && (c.last_cnp_time_ns matches Some(last) && last + c.config.cnp_interval_ns
                <= u64::MAX) ==> next == c && result == Ok::<bool, DcqcnArithmeticError>(false))
        }),
{
    let scale = 1_000_000_000int;
    let alpha = spec_cnp_alpha(c);
    let x = c.config.decrease_ppb * alpha;
    let current = c.current_rate_bps as int;
    assert(alpha >= 0) by (nonlinear_arith)
        requires
            alpha == ((scale - c.config.g_ppb) * c.alpha_ppb + c.config.g_ppb * scale) / scale,
            c.config.g_ppb <= scale,
            scale == 1_000_000_000,
    ;
    if 0 <= x <= scale * scale {
        assert(current * (scale * scale - x) / (scale * scale) <= current) by (nonlinear_arith)
            requires
                current >= 0,
                0 <= x <= scale * scale,
                scale == 1_000_000_000,
        ;
        if x > 0 && current > 0 {
            assert(current * (scale * scale - x) / (scale * scale) < current) by (nonlinear_arith)
                requires
                    current > 0,
                    0 < x <= scale * scale,
                    scale == 1_000_000_000,
            ;
        }
    }
    assert(x >= 0) by (nonlinear_arith)
        requires
            x == c.config.decrease_ppb * alpha,
            alpha >= 0,
            c.config.decrease_ppb >= 0,
    ;
}

/// A control tick at its deadline that follows no fresh CNP decays alpha by the gain,
/// `(1e9 - g) * alpha / 1e9`, schedules the next tick one interval later, and applies exactly
/// one staged increase: fast recovery averages the rate with the unchanged target; the
/// additive and hyper stages first raise the target by their step (capped at the maximum) and
/// then average the rate with it. Fast recovery and additive stages each last five ticks before
/// giving way to the next stage; hyper repeats. The rate never falls below itself when it is at
/// most its target, and in the hyper stage it strictly rises whenever the raised target is at
/// least two above it.
pub proof fn law_control_tick_applies_one_increase(c: DcqcnController, now_ns: u64)
    requires
        c.wf(),
        now_ns == c.next_control_time_ns,
        now_ns + c.config.control_interval_ns <= u64::MAX,
        !c.cnp_seen,
    ensures
        ({
            let next = spec_on_control_timer(c, now_ns).0;
            let result = spec_on_control_timer(c, now_ns).1;
            let step = match c.stage {
                DcqcnIncreaseStage::FastRecovery => 0int,
                DcqcnIncreaseStage::Additive => c.config.additive_rate_bps as int,
                DcqcnIncreaseStage::Hyper => c.config.hyper_rate_bps as int,
            };
            let target = if c.target_rate_bps + step <= c.config.maximum_rate_bps {
                c.target_rate_bps + step
            } else {
                c.config.maximum_rate_bps as int
            };
            &&& result == Ok::<bool, DcqcnArithmeticError>(true)
            &&& next.alpha_ppb == (1_000_000_000 - c.config.g_ppb) * c.alpha_ppb / 1_000_000_000
            &&& next.next_control_time_ns == now_ns + c.config.control_interval_ns
            &&& next.target_rate_bps == target
            &&& next.current_rate_bps == (c.current_rate_bps + target) / 2
            &&& next.config == c.config
            &&& !next.cnp_seen
            &&& (c.stage is Hyper ==> next.stage is Hyper && next.stage_steps == 0)
            &&& (!(c.stage is Hyper) && c.stage_steps + 1 < 5 ==> next.stage == c.stage
                && next.stage_steps == c.stage_steps + 1)
            &&& (c.stage is FastRecovery && c.stage_steps + 1 == 5 ==> next.stage is Additive
                && next.stage_steps == 0)
            &&& (c.stage is Additive && c.stage_steps + 1 == 5 ==> next.stage is Hyper
                && next.stage_steps == 0)
            &&& (c.current_rate_bps <= c.target_rate_bps ==> next.current_rate_bps
                >= c.current_rate_bps)
            &&& (c.stage is Hyper && target >= c.current_rate_bps + 2 ==> next.current_rate_bps
                > c.current_rate_bps)
        }),
{
    let ticked = DcqcnController {
        next_control_time_ns: (now_ns + c.config.control_interval_ns) as u64,
        ..c
    };
    let decayed = DcqcnController { alpha_ppb: spec_decayed_alpha(c) as u64, ..ticked };
    assert(spec_decayed_alpha(c) <= c.alpha_ppb) by (nonlinear_arith)
        requires
            c.config.g_ppb <= 1_000_000_000,
            spec_decayed_alpha(c) == (1_000_000_000 - c.config.g_ppb) * c.alpha_ppb / 1_000_000_000,
    ;
    assert(spec_decayed_alpha(c) >= 0) by (nonlinear_arith)
        requires
            c.config.g_ppb <= 1_000_000_000,
            spec_decayed_alpha(c) == (1_000_000_000 - c.config.g_ppb) * c.alpha_ppb / 1_000_000_000,
    ;
    assert(spec_on_control_timer(c, now_ns) == spec_applied_increase(decayed));
    match c.stage {
        DcqcnIncreaseStage::FastRecovery => {
            assert(spec_increase(decayed) is Ok);
        },
        DcqcnIncreaseStage::Additive => {
            let raised = spec_raised_target(
                c.target_rate_bps,
                c.config.additive_rate_bps,
                c.config.maximum_rate_bps,
            );
            assert(raised == if c.target_rate_bps + c.config.additive_rate_bps
                <= c.config.maximum_rate_bps {
                c.target_rate_bps + c.config.additive_rate_bps
            } else {
                c.config.maximum_rate_bps as int
            });
            assert(spec_increase(decayed) is Ok);
        },
        DcqcnIncreaseStage::Hyper => {
            let raised = spec_raised_target(
                c.target_rate_bps,
                c.config.hyper_rate_bps,
                c.config.maximum_rate_bps,
            );
            assert(raised == if c.target_rate_bps + c.config.hyper_rate_bps
                <= c.config.maximum_rate_bps {
                c.target_rate_bps + c.config.hyper_rate_bps
            } else {
                c.config.maximum_rate_bps as int
            });
            assert(spec_increase(decayed) is Ok);
        },
    }
}


/// Emitted bytes accumulate toward the increase threshold. While a fresh CNP is unanswered, or
/// below the threshold, they are only counted. Reaching the threshold resets the count and
/// applies exactly one staged increase, as a control tick does but without touching alpha or
/// the tick schedule: the target rises by the stage's step (capped at the maximum; none in fast
/// recovery) and the rate is averaged with it.
pub proof fn law_bytes_trigger_one_increase(c: DcqcnController, bytes: u64)
    requires
        c.wf(),
        c.bytes_since_increase + bytes <= u64::MAX,
    ensures
        ({
            let next = spec_on_bytes_emitted(c, bytes).0;
            let result = spec_on_bytes_emitted(c, bytes).1;
            let counted = c.bytes_since_increase + bytes;
            let step = match c.stage {
                DcqcnIncreaseStage::FastRecovery => 0int,
                DcqcnIncreaseStage::Additive => c.config.additive_rate_bps as int,
                DcqcnIncreaseStage::Hyper => c.config.hyper_rate_bps as int,
            };
            let target = if c.target_rate_bps + step <= c.config.maximum_rate_bps {
                c.target_rate_bps + step
            } else {
                c.config.maximum_rate_bps as int
            };
            &&& (c.cnp_seen || counted < c.config.increase_byte_threshold ==> {
                &&& result == Ok::<bool, DcqcnArithmeticError>(false)
                &&& next == (DcqcnController { bytes_since_increase: counted as u64, ..c })
            })
            &&& (!c.cnp_seen && counted >= c.config.increase_byte_threshold ==> {
                &&& result == Ok::<bool, DcqcnArithmeticError>(true)
                &&& next.bytes_since_increase == 0
                &&& next.alpha_ppb == c.alpha_ppb
                &&& next.next_control_time_ns == c.next_control_time_ns
                &&& next.target_rate_bps == target
                &&& next.current_rate_bps == (c.current_rate_bps + target) / 2
                &&& next.config == c.config
            })
        }),
{
    let reset = DcqcnController {
        bytes_since_increase: 0,
        ..DcqcnController { bytes_since_increase: (c.bytes_since_increase + bytes) as u64, ..c }
    };
    match c.stage {
        DcqcnIncreaseStage::FastRecovery => {
            assert(spec_increase(reset) is Ok);
        },
        DcqcnIncreaseStage::Additive => {
            assert(spec_raised_target(
                c.target_rate_bps,
                c.config.additive_rate_bps,
                c.config.maximum_rate_bps,
            ) == if c.target_rate_bps + c.config.additive_rate_bps <= c.config.maximum_rate_bps {
                c.target_rate_bps + c.config.additive_rate_bps
            } else {
                c.config.maximum_rate_bps as int
            });
            assert(spec_increase(reset) is Ok);
        },
        DcqcnIncreaseStage::Hyper => {
            assert(spec_raised_target(
                c.target_rate_bps,
                c.config.hyper_rate_bps,
                c.config.maximum_rate_bps,
            ) == if c.target_rate_bps + c.config.hyper_rate_bps <= c.config.maximum_rate_bps {
                c.target_rate_bps + c.config.hyper_rate_bps
            } else {
                c.config.maximum_rate_bps as int
            });
            assert(spec_increase(reset) is Ok);
        },
    }
}

} // verus!
