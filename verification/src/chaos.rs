//! The chaos injector's per-request decisions.
//!
//! For each request the injector rolls three independent fault types —
//! failure, delay, corruption — against configured probabilities and applies
//! the effects in that fixed order. A failure short-circuits the request
//! with a synthetic error response; a delay suspends it before the handler
//! runs; corruption rewrites the handler's response body afterwards.
//!
//! All decisions are pure functions of the configuration and a bundle of
//! uniform random draws, so the whole decision procedure is verified for
//! every possible draw. Only the draws themselves come from outside.

use vstd::prelude::*;
use crate::rng::draw_below;

verus! {

/// Probability rates are expressed in parts per million; a roll is a uniform
/// draw from `[0, PPM)` and an effect fires when the roll is strictly below
/// the configured rate, so a rate of `PPM` fires always and a rate of 0 never.
pub const PPM: u32 = 1_000_000;

/// The smallest rate a mode may be configured with when it is enabled
/// (one percent).
pub const MIN_RATE_PPM: u32 = 10_000;

/// How a response body is corrupted when the corruption roll fires.
#[derive(Clone, Copy, PartialEq, Eq, Structural, Debug)]
pub enum CorruptionKind {
    /// Replace the body with zero bytes.
    Empty,
    /// Keep only the first half of the body's bytes.
    Truncate,
    /// Replace every byte with a random printable ASCII byte.
    Garbage,
}

/// How long an injected delay lasts.
#[derive(Clone, Copy, PartialEq, Eq, Structural, Debug)]
pub enum DelaySpec {
    /// A fixed number of milliseconds.
    Fixed(u64),
    /// A uniform random number of milliseconds in `[0, delay_max_ms)`.
    Random,
}

/// Immutable chaos configuration, validated once at startup and shared
/// read-only across all requests.
pub struct ChaosConfig {
    /// Whether the failure mode is active.
    pub failure_enabled: bool,
    /// Probability of an injected failure, in parts per million.
    pub failure_rate_ppm: u32,
    /// The HTTP status codes an injected failure chooses from.
    pub failure_codes: Vec<u16>,
    /// Whether the delay mode is active.
    pub delay_enabled: bool,
    /// Probability of an injected delay, in parts per million.
    pub delay_rate_ppm: u32,
    /// Whether the delay is fixed or random.
    pub delay_spec: DelaySpec,
    /// Exclusive upper bound for a random delay, in milliseconds.
    pub delay_max_ms: u64,
    /// Whether the corruption mode is active.
    pub corruption_enabled: bool,
    /// Probability of response corruption, in parts per million.
    pub corruption_rate_ppm: u32,
    /// Which corruption is applied when the roll fires.
    pub corruption_kind: CorruptionKind,
    /// Whether affected responses carry the informational header.
    pub inform_header: bool,
}

impl ChaosConfig {
    /// A configuration is well formed when every enabled mode's sub-config is
    /// fully populated: its rate lies in `[MIN_RATE_PPM, PPM]`, failure codes
    /// are non-empty HTTP error codes in `[400, 599]`, and a random delay has
    /// a positive upper bound.
    pub open spec fn wf(&self) -> bool {
        &&& (self.failure_enabled ==> {
            &&& MIN_RATE_PPM <= self.failure_rate_ppm <= PPM
            &&& self.failure_codes.len() > 0
            &&& forall|i: int|
                0 <= i < self.failure_codes.len() ==> 400 <= #[trigger] self.failure_codes[i]
                    <= 599
        })
        &&& (self.delay_enabled ==> {
            &&& MIN_RATE_PPM <= self.delay_rate_ppm <= PPM
            &&& (self.delay_spec is Random ==> self.delay_max_ms > 0)
        })
        &&& (self.corruption_enabled ==> MIN_RATE_PPM <= self.corruption_rate_ppm <= PPM)
    }

    /// Checks well-formedness at startup; a configuration that fails this
    /// check is fatal to server startup and never reaches request time.
    pub fn validate(&self) -> (r: bool)
        ensures
            r == self.wf(),
    {
        let failure_ok = if self.failure_enabled {
            MIN_RATE_PPM <= self.failure_rate_ppm && self.failure_rate_ppm <= PPM
                && self.failure_codes.len() > 0 && self.failure_codes_valid()
        } else {
            true
        };
        let delay_ok = if self.delay_enabled {
            MIN_RATE_PPM <= self.delay_rate_ppm && self.delay_rate_ppm <= PPM && (match self
                .delay_spec {
                DelaySpec::Random => self.delay_max_ms > 0,
                DelaySpec::Fixed(_) => true,
            })
        } else {
            true
        };
        let corruption_ok = if self.corruption_enabled {
            MIN_RATE_PPM <= self.corruption_rate_ppm && self.corruption_rate_ppm <= PPM
        } else {
            true
        };
        failure_ok && delay_ok && corruption_ok
    }

    fn failure_codes_valid(&self) -> (r: bool)
        ensures
            r == forall|i: int|
                0 <= i < self.failure_codes.len() ==> 400 <= #[trigger] self.failure_codes[i]
                    <= 599,
    {
        let mut i: usize = 0;
        while i < self.failure_codes.len()
            invariant
                i <= self.failure_codes.len(),
                forall|j: int| 0 <= j < i ==> 400 <= #[trigger] self.failure_codes[j] <= 599,
            decreases self.failure_codes.len() - i,
        {
            let c = self.failure_codes[i];
            if c < 400 || c > 599 {
                return false;
            }
            i = i + 1;
        }
        true
    }
}

/// The uniform draws one request consumes, one per independent decision.
/// Each request uses its own bundle, so chaos outcomes of concurrent
/// requests never couple through shared generator state.
pub struct ChaosRolls {
    /// Roll against the failure rate.
    pub failure_roll: u32,
    /// Index into `failure_codes` when the failure fires.
    pub code_roll: usize,
    /// Roll against the delay rate.
    pub delay_roll: u32,
    /// Random delay length when the delay spec is random.
    pub delay_value_roll: u64,
    /// Roll against the corruption rate.
    pub corruption_roll: u32,
}

impl ChaosRolls {
    /// Each roll lies in the range its decision expects.
    pub open spec fn wf(&self, cfg: ChaosConfig) -> bool {
        &&& self.failure_roll < PPM
        &&& self.delay_roll < PPM
        &&& self.corruption_roll < PPM
        &&& (cfg.failure_enabled ==> self.code_roll < cfg.failure_codes.len())
        &&& (cfg.delay_enabled && cfg.delay_spec is Random ==> self.delay_value_roll
            < cfg.delay_max_ms)
    }
}

/// What the injector decided for one request: either a synthetic failure
/// that short-circuits the handler, or a pass-through with an optional delay
/// before the handler and optional corruption of its response.
#[derive(Debug)]
pub enum ChaosPlan {
    /// Short-circuit with a synthetic error response carrying this status
    /// code; the downstream handler is never invoked.
    Fail { code: u16 },
    /// Invoke the handler, delayed by the given milliseconds when present,
    /// and corrupt its response body when a kind is present.
    Pass { delay_ms: Option<u64>, corruption: Option<CorruptionKind> },
}

/// The failure roll fires exactly when the mode is active and the roll is
/// strictly below the rate.
pub open spec fn spec_failure_fires(cfg: ChaosConfig, rolls: ChaosRolls) -> bool {
    cfg.failure_enabled && rolls.failure_roll < cfg.failure_rate_ppm
}

/// The delay roll fires exactly when the mode is active and the roll is
/// strictly below the rate.
pub open spec fn spec_delay_fires(cfg: ChaosConfig, rolls: ChaosRolls) -> bool {
    cfg.delay_enabled && rolls.delay_roll < cfg.delay_rate_ppm
}

/// The corruption roll fires exactly when the mode is active and the roll is
/// strictly below the rate; a roll equal to the rate does not corrupt.
pub open spec fn spec_corruption_fires(cfg: ChaosConfig, rolls: ChaosRolls) -> bool {
    cfg.corruption_enabled && rolls.corruption_roll < cfg.corruption_rate_ppm
}

/// The milliseconds of a fired delay: the fixed value, or the random draw.
pub open spec fn spec_delay_value(cfg: ChaosConfig, rolls: ChaosRolls) -> u64 {
    match cfg.delay_spec {
        DelaySpec::Fixed(ms) => ms,
        DelaySpec::Random => rolls.delay_value_roll,
    }
}

/// The complete decision for one request: evaluation order is failure, then
/// delay, then corruption, and only a fired failure short-circuits.
pub open spec fn spec_plan(cfg: ChaosConfig, rolls: ChaosRolls) -> ChaosPlan {
    if spec_failure_fires(cfg, rolls) {
        ChaosPlan::Fail { code: cfg.failure_codes[rolls.code_roll as int] }
    } else {
        ChaosPlan::Pass {
            delay_ms: if spec_delay_fires(cfg, rolls) {
                Some(spec_delay_value(cfg, rolls))
            } else {
                None
            },
            corruption: if spec_corruption_fires(cfg, rolls) {
                Some(cfg.corruption_kind)
            } else {
                None
            },
        }
    }
}

/// Decides the failure step alone: `Some(code)` exactly when the failure
/// mode fires, with the code picked uniformly from the configured list.
pub fn decide_failure(cfg: &ChaosConfig, roll: u32, code_roll: usize) -> (r: Option<u16>)
    requires
        cfg.wf(),
        cfg.failure_enabled ==> code_roll < cfg.failure_codes.len(),
    ensures
        r == if cfg.failure_enabled && roll < cfg.failure_rate_ppm {
            Some(cfg.failure_codes[code_roll as int])
        } else {
            None::<u16>
        },
        r matches Some(code) ==> 400 <= code <= 599,
{
    if cfg.failure_enabled && roll < cfg.failure_rate_ppm {
        Some(cfg.failure_codes[code_roll])
    } else {
        None
    }
}

/// Decides the delay step alone: `Some(ms)` exactly when the delay mode
/// fires, with the fixed or randomly drawn length.
pub fn decide_delay(cfg: &ChaosConfig, roll: u32, value_roll: u64) -> (r: Option<u64>)
    requires
        cfg.wf(),
    ensures
        r == if cfg.delay_enabled && roll < cfg.delay_rate_ppm {
            Some(
                match cfg.delay_spec {
                    DelaySpec::Fixed(ms) => ms,
                    DelaySpec::Random => value_roll,
                },
            )
        } else {
            None::<u64>
        },
{
    if cfg.delay_enabled && roll < cfg.delay_rate_ppm {
        match cfg.delay_spec {
            DelaySpec::Fixed(ms) => Some(ms),
            DelaySpec::Random => Some(value_roll),
        }
    } else {
        None
    }
}

/// Decides the corruption step alone: `Some(kind)` exactly when the
/// corruption mode fires. The comparison is strict, so a roll equal to the
/// configured rate means no corruption.
pub fn decide_corruption(cfg: &ChaosConfig, roll: u32) -> (r: Option<CorruptionKind>)
    requires
        cfg.wf(),
    ensures
        r == if cfg.corruption_enabled && roll < cfg.corruption_rate_ppm {
            Some(cfg.corruption_kind)
        } else {
            None::<CorruptionKind>
        },
{
    if cfg.corruption_enabled && roll < cfg.corruption_rate_ppm {
        Some(cfg.corruption_kind)
    } else {
        None
    }
}

/// Combines the three decisions into the plan for one request.
pub fn chaos_plan(cfg: &ChaosConfig, rolls: &ChaosRolls) -> (p: ChaosPlan)
    requires
        cfg.wf(),
        rolls.wf(*cfg),
    ensures
        p == spec_plan(*cfg, *rolls),
{
    if let Some(code) = decide_failure(cfg, rolls.failure_roll, rolls.code_roll) {
        ChaosPlan::Fail { code }
    } else {
        let delay_ms = decide_delay(cfg, rolls.delay_roll, rolls.delay_value_roll);
        let corruption = decide_corruption(cfg, rolls.corruption_roll);
        ChaosPlan::Pass { delay_ms, corruption }
    }
}

/// Draws one request's bundle of rolls from the thread-local generator.
pub fn draw_rolls(cfg: &ChaosConfig) -> (r: ChaosRolls)
    requires
        cfg.wf(),
    ensures
        r.wf(*cfg),
{
    let failure_roll = draw_below(PPM as u64) as u32;
    let delay_roll = draw_below(PPM as u64) as u32;
    let corruption_roll = draw_below(PPM as u64) as u32;
    let code_roll = if cfg.failure_enabled {
        draw_below(cfg.failure_codes.len() as u64) as usize
    } else {
        0
    };
    let delay_value_roll = if cfg.delay_enabled && matches!(cfg.delay_spec, DelaySpec::Random) {
        draw_below(cfg.delay_max_ms)
    } else {
        0
    };
    ChaosRolls { failure_roll, code_roll, delay_roll, delay_value_roll, corruption_roll }
}

/// Rolls and decides in one step. The rolls are random, so the contract
/// states what holds of the plan whatever was drawn: a disabled mode never
/// fires, an injected failure code always comes from the configured list,
/// and a fired delay respects the configured spec.
pub fn chaos_decide(cfg: &ChaosConfig) -> (p: ChaosPlan)
    requires
        cfg.wf(),
    ensures
        exists|rolls: ChaosRolls| rolls.wf(*cfg) && p == spec_plan(*cfg, rolls),
        !cfg.failure_enabled ==> !(p is Fail),
        p matches ChaosPlan::Fail { code } ==> cfg.failure_codes@.contains(code),
        p matches ChaosPlan::Pass { delay_ms, corruption } ==> {
            &&& (!cfg.delay_enabled ==> delay_ms is None)
            &&& (delay_ms matches Some(ms) ==> match cfg.delay_spec {
                DelaySpec::Fixed(fixed) => ms == fixed,
                DelaySpec::Random => ms < cfg.delay_max_ms,
            })
            &&& (!cfg.corruption_enabled ==> corruption is None)
            &&& (corruption matches Some(kind) ==> kind == cfg.corruption_kind)
        },
{
    let rolls = draw_rolls(cfg);
    let p = chaos_plan(cfg, &rolls);
    proof {
        if spec_failure_fires(*cfg, rolls) {
            assert(cfg.failure_codes@.contains(cfg.failure_codes[rolls.code_roll as int]));
        }
    }
    p
}

/// What `apply_corruption` leaves of a body for the deterministic kinds:
/// nothing for `Empty`, the first half of the bytes (integer division,
/// rounding down) for `Truncate`. `Garbage` bytes are random, so only their
/// length and printable range are stated, in the function's `ensures`.
pub open spec fn spec_corrupted_deterministic(kind: CorruptionKind, body: Seq<u8>) -> Seq<u8>
    recommends
        !(kind is Garbage),
{
    match kind {
        CorruptionKind::Empty => Seq::<u8>::empty(),
        CorruptionKind::Truncate => body.subrange(0, body.len() as int / 2),
        CorruptionKind::Garbage => body,
    }
}

/// Transforms a response body according to the corruption kind: `Empty`
/// drops every byte, `Truncate` keeps the first half, and `Garbage` replaces
/// every byte with a uniformly random printable ASCII byte in `[0x21, 0x7E]`,
/// preserving the length.
pub fn apply_corruption(kind: CorruptionKind, body: Vec<u8>) -> (r: Vec<u8>)
    ensures
        kind is Empty ==> r@ == Seq::<u8>::empty(),
        kind is Truncate ==> r@ == body@.subrange(0, body@.len() as int / 2),
        !(kind is Garbage) ==> r@ == spec_corrupted_deterministic(kind, body@),
        kind is Garbage ==> r@.len() == body@.len() && forall|i: int|
            0 <= i < r@.len() ==> 0x21 <= #[trigger] r@[i] <= 0x7E,
{
    match kind {
        CorruptionKind::Empty => Vec::new(),
        CorruptionKind::Truncate => {
            let mut b = body;
            let half = b.len() / 2;
            b.truncate(half);
            b
        },
        CorruptionKind::Garbage => {
            let len = body.len();
            let mut out: Vec<u8> = Vec::new();
            let mut i: usize = 0;
            while i < len
                invariant
                    i <= len,
                    out@.len() == i,
                    forall|j: int| 0 <= j < i ==> 0x21 <= #[trigger] out@[j] <= 0x7E,
                decreases len - i,
            {
                let b = 0x21u8 + draw_below(0x5E) as u8;
                out.push(b);
                i = i + 1;
            }
            out
        },
    }
}

/// The digit character for one decimal digit.
pub open spec fn spec_digit_char(d: nat) -> char {
    if d == 0 {
        '0'
    } else if d == 1 {
        '1'
    } else if d == 2 {
        '2'
    } else if d == 3 {
        '3'
    } else if d == 4 {
        '4'
    } else if d == 5 {
        '5'
    } else if d == 6 {
        '6'
    } else if d == 7 {
        '7'
    } else if d == 8 {
        '8'
    } else {
        '9'
    }
}

/// The decimal digit string of a number, most significant digit first, with
/// no leading zeros (a lone zero for 0).
pub open spec fn spec_decimal(n: nat) -> Seq<char>
    decreases n,
{
    if n < 10 {
        seq![spec_digit_char(n)]
    } else {
        spec_decimal(n / 10).push(spec_digit_char(n % 10))
    }
}

fn digit_str(d: u16) -> (r: &'static str)
    requires
        d < 10,
    ensures
        r@ == seq![spec_digit_char(d as nat)],
{
    proof {
        reveal_strlit("0");
        reveal_strlit("1");
        reveal_strlit("2");
        reveal_strlit("3");
        reveal_strlit("4");
        reveal_strlit("5");
        reveal_strlit("6");
        reveal_strlit("7");
        reveal_strlit("8");
        reveal_strlit("9");
    }
    let r: &'static str = match d {
        0 => "0",
        1 => "1",
        2 => "2",
        3 => "3",
        4 => "4",
        5 => "5",
        6 => "6",
        7 => "7",
        8 => "8",
        _ => "9",
    };
    proof {
        assert(r@ =~= seq![spec_digit_char(d as nat)]);
    }
    r
}

/// Appends the decimal digits of `n` to a string.
pub fn append_decimal(s: &mut String, n: u16)
    ensures
        final(s)@ == old(s)@ + spec_decimal(n as nat),
    decreases n,
{
    if n >= 10 {
        append_decimal(s, n / 10);
        s.append(digit_str(n % 10));
        proof {
            assert((n / 10) as nat == n as nat / 10);
            assert((n % 10) as nat == n as nat % 10);
            assert(s@ =~= old(s)@ + spec_decimal(n as nat));
        }
    } else {
        s.append(digit_str(n));
        proof {
            assert(s@ =~= old(s)@ + spec_decimal(n as nat));
        }
    }
}

/// The synthetic JSON body of an injected failure, carrying the chosen
/// status code.
pub open spec fn spec_failure_body(code: u16) -> Seq<char> {
    "{\"error\": \"Chaos failure injected\", \"chaos\": {\"type\": \"failure\", \"status_code\": "@
        + spec_decimal(code as nat) + "}}"@
}

/// Builds the synthetic JSON error body for an injected failure with the
/// given status code.
pub fn failure_body(code: u16) -> (r: String)
    ensures
        r@ == spec_failure_body(code),
{
    let mut s = String::from_str(
        "{\"error\": \"Chaos failure injected\", \"chaos\": {\"type\": \"failure\", \"status_code\": ",
    );
    append_decimal(&mut s, code);
    s.append("}}");
    proof {
        assert(s@ =~= spec_failure_body(code));
    }
    s
}

/// The value of the informational response header: the names of the applied
/// effects, comma-separated, in the order they occurred. A failure is alone,
/// since its short-circuit precludes the later effects; delay always
/// precedes corruption.
pub open spec fn spec_header_value(failed: bool, delayed: bool, corrupted: bool) -> Seq<char> {
    if failed {
        "failure"@
    } else if delayed && corrupted {
        "delay,corruption"@
    } else if delayed {
        "delay"@
    } else if corrupted {
        "corruption"@
    } else {
        ""@
    }
}

/// Builds the informational header value from which effects were applied.
pub fn header_value(failed: bool, delayed: bool, corrupted: bool) -> (r: String)
    ensures
        r@ == spec_header_value(failed, delayed, corrupted),
{
    if failed {
        String::from_str("failure")
    } else if delayed && corrupted {
        String::from_str("delay,corruption")
    } else if delayed {
        String::from_str("delay")
    } else if corrupted {
        String::from_str("corruption")
    } else {
        String::from_str("")
    }
}

/// The informational header of a response: present exactly when the
/// configuration asks for it and at least one effect was applied to the
/// request, carrying the applied effects in order.
pub fn chaos_header(inform: bool, failed: bool, delayed: bool, corrupted: bool) -> (r: Option<
    String,
>)
    ensures
        r is Some <==> inform && (failed || delayed || corrupted),
        r matches Some(v) ==> v@ == spec_header_value(failed, delayed, corrupted),
{
    if inform && (failed || delayed || corrupted) {
        Some(header_value(failed, delayed, corrupted))
    } else {
        None
    }
}

/// For any configuration with the failure mode disabled, no request is ever
/// planned as a synthetic failure, whatever the rolls: the short-circuit
/// path is unreachable and every request reaches the downstream handler.
pub proof fn lemma_failure_disabled_never_fails(cfg: ChaosConfig, rolls: ChaosRolls)
    requires
        !cfg.failure_enabled,
    ensures
        !(spec_plan(cfg, rolls) is Fail),
        spec_plan(cfg, rolls) is Pass,
{
}

} // verus!
