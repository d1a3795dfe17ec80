//! Runtime configuration: command-line arguments plus environment values.
//!
//! The environment itself is read by the program around this library; the
//! values it finds are handed in as an [`EnvVars`], so that every rule about
//! which values are required, which defaults apply and which values are
//! rejected is stated and proved here.

use vstd::prelude::*;

verus! {

/// Name of the variable that holds the dashboard user name.
pub const DASHBOARD_USER_VAR: &'static str = "WEBHOOK_DASHBOARD_USER";
/// Name of the variable that holds the dashboard password.
pub const DASHBOARD_PASSWORD_VAR: &'static str = "WEBHOOK_DASHBOARD_PASSWORD";
/// Name of the variable that holds the request body limit in bytes.
pub const BODY_LIMIT_VAR: &'static str = "WEBHOOK_BODY_LIMIT_BYTES";
/// Name of the variable that holds how many webhooks each endpoint keeps.
pub const RETAIN_VAR: &'static str = "WEBHOOK_RETAIN_PER_ENDPOINT";

/// Body limit used when the variable is absent or empty (1 MiB).
pub const DEFAULT_BODY_LIMIT_BYTES: usize = 1_048_576;
/// Per-endpoint retention used when the variable is absent or empty.
pub const DEFAULT_RETAIN_PER_ENDPOINT: i64 = 250;

/// Command-line arguments.
#[derive(Debug, Clone)]
pub struct CliArgs {
    /// Bind address.
    pub bind: String,
    /// SQLite database file path.
    pub db_path: String,
}

/// The values of the configuration variables, as found in the environment.
/// `None` stands for a variable that is unset or not valid Unicode.
#[derive(Debug, Clone)]
pub struct EnvVars {
    pub dashboard_user: Option<String>,
    pub dashboard_password: Option<String>,
    pub body_limit_bytes: Option<String>,
    pub retain_per_endpoint: Option<String>,
}

/// The validated configuration of the service.
#[derive(Debug, Clone)]
pub struct Config {
    pub bind: String,
    pub db_path: String,
    pub body_limit_bytes: usize,
    pub retain_per_endpoint: i64,
    pub dashboard_user: String,
    pub dashboard_password: String,
}

/// Why the configuration was refused.
#[derive(Debug)]
pub enum ConfigError {
    /// A required variable is unset or empty.
    MissingEnv(&'static str),
    /// A variable holds a value that cannot be used.
    InvalidEnv { var: &'static str, message: String },
}

/// Why a decimal integer could not be read (the kinds of std's `ParseIntError`
/// that decimal parsing of a fixed-width integer can produce).
#[derive(PartialEq, Eq, Structural, Clone, Copy, Debug)]
pub enum IntErrorKind {
    Empty,
    InvalidDigit,
    PosOverflow,
    NegOverflow,
}

pub open spec fn is_decimal_digit(c: char) -> bool {
    '0' <= c && c <= '9'
}

pub open spec fn decimal_digit_value(c: char) -> int {
    c as int - '0' as int
}

/// Reads the digits `ds` from left to right, accumulating away from zero in
/// the direction given by `negative`; the first character that is not a digit,
/// or the first step that leaves `[lo, hi]`, decides the error.
pub open spec fn scan_decimal(ds: Seq<char>, negative: bool, lo: int, hi: int) -> Result<int, IntErrorKind>
    decreases ds.len(),
{
    if ds.len() == 0 {
        Ok(0)
    } else {
        match scan_decimal(ds.drop_last(), negative, lo, hi) {
            Err(k) => Err(k),
            Ok(acc) => {
                if !is_decimal_digit(ds.last()) {
                    Err(IntErrorKind::InvalidDigit)
                } else {
                    let v = if negative {
                        acc * 10 - decimal_digit_value(ds.last())
                    } else {
                        acc * 10 + decimal_digit_value(ds.last())
                    };
                    if v > hi {
                        Err(IntErrorKind::PosOverflow)
                    } else if v < lo {
                        Err(IntErrorKind::NegOverflow)
                    } else {
                        Ok(v)
                    }
                }
            },
        }
    }
}

/// Decimal parsing of an integer type with range `[lo, hi]`, as std's
/// `FromStr` for the integer types does it: an optional `+` (or, for signed
/// types, `-`) followed by ASCII digits.
pub open spec fn parse_decimal(s: Seq<char>, signed: bool, lo: int, hi: int) -> Result<int, IntErrorKind> {
    if s.len() == 0 {
        Err(IntErrorKind::Empty)
    } else if s.len() == 1 && (s[0] == '+' || s[0] == '-') {
        Err(IntErrorKind::InvalidDigit)
    } else if s[0] == '+' {
        scan_decimal(s.drop_first(), false, lo, hi)
    } else if s[0] == '-' && signed {
        scan_decimal(s.drop_first(), true, lo, hi)
    } else {
        scan_decimal(s, false, lo, hi)
    }
}

pub open spec fn spec_parse_usize(s: Seq<char>) -> Result<int, IntErrorKind> {
    parse_decimal(s, false, 0, usize::MAX as int)
}

pub open spec fn spec_parse_i64(s: Seq<char>) -> Result<int, IntErrorKind> {
    parse_decimal(s, true, i64::MIN as int, i64::MAX as int)
}

/// The text that std's `ParseIntError` displays for each kind.
pub open spec fn int_error_text(k: IntErrorKind) -> Seq<char> {
    match k {
        IntErrorKind::Empty => "cannot parse integer from empty string"@,
        IntErrorKind::InvalidDigit => "invalid digit found in string"@,
        IntErrorKind::PosOverflow => "number too large to fit in target type"@,
        IntErrorKind::NegOverflow => "number too small to fit in target type"@,
    }
}

proof fn lemma_scan_bounds(ds: Seq<char>, negative: bool, lo: int, hi: int)
    requires
        lo <= 0 <= hi,
    ensures
        scan_decimal(ds, negative, lo, hi) matches Ok(v) ==> lo <= v <= hi,
        scan_decimal(ds, negative, lo, hi) matches Ok(v) ==> (negative ==> v <= 0) && (!negative ==> v >= 0),
    decreases ds.len(),
{
    if ds.len() > 0 {
        lemma_scan_bounds(ds.drop_last(), negative, lo, hi);
    }
}

/// Reads `s@.subrange(start, n)` with [`scan_decimal`].
fn scan_decimal_exec(s: &str, start: usize, negative: bool, lo: i128, hi: i128) -> (res: Result<i128, IntErrorKind>)
    requires
        start <= s@.len(),
        -0x1_0000_0000_0000_0000_0000 <= lo <= 0 <= hi <= 0x1_0000_0000_0000_0000_0000,
    ensures
        match (res, scan_decimal(s@.subrange(start as int, s@.len() as int), negative, lo as int, hi as int)) {
            (Ok(a), Ok(b)) => a == b,
            (Err(a), Err(b)) => a == b,
            _ => false,
        },
{
    let n = s.unicode_len();
    let mut acc: i128 = 0;
    let mut i = start;
    proof {
        assert(s@.subrange(start as int, start as int) =~= Seq::<char>::empty());
    }
    while i < n
        invariant
            n == s@.len(),
            start <= i <= n,
            -0x1_0000_0000_0000_0000_0000 <= lo <= 0 <= hi <= 0x1_0000_0000_0000_0000_0000,
            scan_decimal(s@.subrange(start as int, i as int), negative, lo as int, hi as int) == Ok::<int, IntErrorKind>(acc as int),
        decreases n - i,
    {
        let ghost prefix = s@.subrange(start as int, i as int);
        let ghost next = s@.subrange(start as int, i + 1);
        proof {
            assert(next.drop_last() =~= prefix);
            assert(next.last() == s@[i as int]);
            lemma_scan_bounds(prefix, negative, lo as int, hi as int);
        }
        let c = s.get_char(i);
        if !('0' <= c && c <= '9') {
            proof {
                lemma_rest_fails(s@, start as int, i as int + 1, negative, lo as int, hi as int, IntErrorKind::InvalidDigit);
            }
            return Err(IntErrorKind::InvalidDigit);
        }
        let d = (c as u32 - '0' as u32) as i128;
        let v = if negative { acc * 10 - d } else { acc * 10 + d };
        if v > hi {
            proof {
                lemma_rest_fails(s@, start as int, i as int + 1, negative, lo as int, hi as int, IntErrorKind::PosOverflow);
            }
            return Err(IntErrorKind::PosOverflow);
        }
        if v < lo {
            proof {
                lemma_rest_fails(s@, start as int, i as int + 1, negative, lo as int, hi as int, IntErrorKind::NegOverflow);
            }
            return Err(IntErrorKind::NegOverflow);
        }
        acc = v;
        i = i + 1;
    }
    proof {
        assert(s@.subrange(start as int, n as int) =~= s@.subrange(start as int, s@.len() as int));
    }
    Ok(acc)
}

/// Once a prefix of the digits fails, the whole sequence fails the same way.
proof fn lemma_rest_fails(s: Seq<char>, start: int, j: int, negative: bool, lo: int, hi: int, k: IntErrorKind)
    requires
        0 <= start <= j <= s.len(),
        scan_decimal(s.subrange(start, j), negative, lo, hi) == Err::<int, IntErrorKind>(k),
    ensures
        scan_decimal(s.subrange(start, s.len() as int), negative, lo, hi) == Err::<int, IntErrorKind>(k),
    decreases s.len() - j,
{
    if j < s.len() {
        let next = s.subrange(start, j + 1);
        assert(next.drop_last() =~= s.subrange(start, j));
        lemma_rest_fails(s, start, j + 1, negative, lo, hi, k);
    }
}

fn parse_decimal_exec(s: &str, signed: bool, lo: i128, hi: i128) -> (res: Result<i128, IntErrorKind>)
    requires
        -0x1_0000_0000_0000_0000_0000 <= lo <= 0 <= hi <= 0x1_0000_0000_0000_0000_0000,
    ensures
        match (res, parse_decimal(s@, signed, lo as int, hi as int)) {
            (Ok(a), Ok(b)) => a == b,
            (Err(a), Err(b)) => a == b,
            _ => false,
        },
{
    let n = s.unicode_len();
    if n == 0 {
        return Err(IntErrorKind::Empty);
    }
    let c0 = s.get_char(0);
    if n == 1 && (c0 == '+' || c0 == '-') {
        return Err(IntErrorKind::InvalidDigit);
    }
    proof {
        assert(s@.subrange(1, s@.len() as int) =~= s@.drop_first());
        assert(s@.subrange(0, s@.len() as int) =~= s@);
    }
    if c0 == '+' {
        scan_decimal_exec(s, 1, false, lo, hi)
    } else if c0 == '-' && signed {
        scan_decimal_exec(s, 1, true, lo, hi)
    } else {
        scan_decimal_exec(s, 0, false, lo, hi)
    }
}

/// Parses a decimal `usize` exactly as `str::parse::<usize>` does.
pub fn parse_usize(s: &str) -> (res: Result<usize, IntErrorKind>)
    ensures
        match (res, spec_parse_usize(s@)) {
            (Ok(a), Ok(b)) => a as int == b,
            (Err(a), Err(b)) => a == b,
            _ => false,
        },
{
    proof {
        lemma_parse_bounds(s@, false, 0, usize::MAX as int);
    }
    match parse_decimal_exec(s, false, 0, usize::MAX as i128) {
        Ok(v) => Ok(v as usize),
        Err(k) => Err(k),
    }
}

/// Parses a decimal `i64` exactly as `str::parse::<i64>` does.
pub fn parse_i64(s: &str) -> (res: Result<i64, IntErrorKind>)
    ensures
        match (res, spec_parse_i64(s@)) {
            (Ok(a), Ok(b)) => a as int == b,
            (Err(a), Err(b)) => a == b,
            _ => false,
        },
{
    proof {
        lemma_parse_bounds(s@, true, i64::MIN as int, i64::MAX as int);
    }
    match parse_decimal_exec(s, true, i64::MIN as i128, i64::MAX as i128) {
        Ok(v) => Ok(v as i64),
        Err(k) => Err(k),
    }
}

proof fn lemma_parse_bounds(s: Seq<char>, signed: bool, lo: int, hi: int)
    requires
        lo <= 0 <= hi,
    ensures
        parse_decimal(s, signed, lo, hi) matches Ok(v) ==> lo <= v <= hi,
{
    if s.len() > 0 {
        lemma_scan_bounds(s.drop_first(), false, lo, hi);
        lemma_scan_bounds(s.drop_first(), true, lo, hi);
        lemma_scan_bounds(s, false, lo, hi);
    }
}


/// The text of std's `ParseIntError` of the given kind.
pub fn int_error_text_exec(k: IntErrorKind) -> (res: String)
    ensures
        res@ == int_error_text(k),
{
    match k {
        IntErrorKind::Empty => "cannot parse integer from empty string".to_owned(),
        IntErrorKind::InvalidDigit => "invalid digit found in string".to_owned(),
        IntErrorKind::PosOverflow => "number too large to fit in target type".to_owned(),
        IntErrorKind::NegOverflow => "number too small to fit in target type".to_owned(),
    }
}

/// A variable counts as set when it is present and non-empty.
pub open spec fn is_set(v: Option<String>) -> bool {
    match v {
        Some(s) => s@.len() > 0,
        None => false,
    }
}

/// The value of an optional `usize` variable: parsed when set, else the default.
pub open spec fn usize_setting(v: Option<String>, default: int) -> Result<int, IntErrorKind> {
    match v {
        Some(s) => if s@.len() > 0 { spec_parse_usize(s@) } else { Ok(default) },
        None => Ok(default),
    }
}

/// The value of an optional `i64` variable: parsed when set, else the default.
pub open spec fn i64_setting(v: Option<String>, default: int) -> Result<int, IntErrorKind> {
    match v {
        Some(s) => if s@.len() > 0 { spec_parse_i64(s@) } else { Ok(default) },
        None => Ok(default),
    }
}

/// A required variable: its value when set, else `MissingEnv(name)`.
pub fn require_env(name: &'static str, value: Option<String>) -> (res: Result<String, ConfigError>)
    ensures
        is_set(value) ==> res == Ok::<String, ConfigError>(value->0),
        !is_set(value) ==> res == Err::<String, ConfigError>(ConfigError::MissingEnv(name)),
{
    match value {
        Some(v) => {
            if v.as_str().is_empty() {
                Err(ConfigError::MissingEnv(name))
            } else {
                Ok(v)
            }
        },
        None => Err(ConfigError::MissingEnv(name)),
    }
}

/// An optional `usize` variable: parsed when set, else `default`; a value
/// that does not parse gives `InvalidEnv` with the parser's message.
pub fn optional_usize_env(name: &'static str, value: Option<String>, default: usize) -> (res: Result<usize, ConfigError>)
    ensures
        match (res, usize_setting(value, default as int)) {
            (Ok(a), Ok(b)) => a as int == b,
            (Err(ConfigError::InvalidEnv { var, message }), Err(k)) => var == name && message@ == int_error_text(k),
            _ => false,
        },
{
    match value {
        Some(v) => {
            if v.as_str().is_empty() {
                Ok(default)
            } else {
                match parse_usize(v.as_str()) {
                    Ok(n) => Ok(n),
                    Err(k) => Err(ConfigError::InvalidEnv { var: name, message: int_error_text_exec(k) }),
                }
            }
        },
        None => Ok(default),
    }
}

/// An optional `i64` variable: parsed when set, else `default`; a value
/// that does not parse gives `InvalidEnv` with the parser's message.
pub fn optional_i64_env(name: &'static str, value: Option<String>, default: i64) -> (res: Result<i64, ConfigError>)
    ensures
        match (res, i64_setting(value, default as int)) {
            (Ok(a), Ok(b)) => a as int == b,
            (Err(ConfigError::InvalidEnv { var, message }), Err(k)) => var == name && message@ == int_error_text(k),
            _ => false,
        },
{
    match value {
        Some(v) => {
            if v.as_str().is_empty() {
                Ok(default)
            } else {
                match parse_i64(v.as_str()) {
                    Ok(n) => Ok(n),
                    Err(k) => Err(ConfigError::InvalidEnv { var: name, message: int_error_text_exec(k) }),
                }
            }
        },
        None => Ok(default),
    }
}

/// The text of the error given when the retention setting is below one.
pub open spec fn retain_too_small_text() -> Seq<char> {
    "must be >= 1"@
}

/// What [`Config::from_args_and_env`] decides for the given inputs, stated
/// check by check in the order the checks are made.
pub open spec fn config_outcome(args: CliArgs, env: EnvVars, res: Result<Config, ConfigError>) -> bool {
    if !is_set(env.dashboard_user) {
        res == Err::<Config, ConfigError>(ConfigError::MissingEnv(DASHBOARD_USER_VAR))
    } else if !is_set(env.dashboard_password) {
        res == Err::<Config, ConfigError>(ConfigError::MissingEnv(DASHBOARD_PASSWORD_VAR))
    } else {
        match usize_setting(env.body_limit_bytes, DEFAULT_BODY_LIMIT_BYTES as int) {
            Err(k) => res matches Err(ConfigError::InvalidEnv { var, message })
                && var == BODY_LIMIT_VAR && message@ == int_error_text(k),
            Ok(limit) => match i64_setting(env.retain_per_endpoint, DEFAULT_RETAIN_PER_ENDPOINT as int) {
                Err(k) => res matches Err(ConfigError::InvalidEnv { var, message })
                    && var == RETAIN_VAR && message@ == int_error_text(k),
                Ok(retain) => if retain < 1 {
                    res matches Err(ConfigError::InvalidEnv { var, message })
                        && var == RETAIN_VAR && message@ == retain_too_small_text()
                } else {
                    res matches Ok(c) && {
                        &&& c.bind == args.bind
                        &&& c.db_path == args.db_path
                        &&& c.body_limit_bytes as int == limit
                        &&& c.retain_per_endpoint as int == retain
                        &&& c.dashboard_user == env.dashboard_user->0
                        &&& c.dashboard_password == env.dashboard_password->0
                    }
                },
            },
        }
    }
}

impl Config {
    /// Builds the configuration from the command-line arguments and the
    /// values of the environment variables. The dashboard credentials are
    /// required and must be non-empty; the body limit defaults to 1 MiB and
    /// the per-endpoint retention to 250, which must be at least 1.
    pub fn from_args_and_env(args: CliArgs, env: EnvVars) -> (res: Result<Config, ConfigError>)
        ensures
            config_outcome(args, env, res),
            res matches Ok(c) ==> c.retain_per_endpoint >= 1 && c.dashboard_user@.len() > 0
                && c.dashboard_password@.len() > 0,
    {
        let EnvVars { dashboard_user, dashboard_password, body_limit_bytes, retain_per_endpoint } = env;
        let dashboard_user = match require_env(DASHBOARD_USER_VAR, dashboard_user) {
            Ok(v) => v,
            Err(e) => return Err(e),
        };
        let dashboard_password = match require_env(DASHBOARD_PASSWORD_VAR, dashboard_password) {
            Ok(v) => v,
            Err(e) => return Err(e),
        };
        let body_limit_bytes = match optional_usize_env(BODY_LIMIT_VAR, body_limit_bytes, DEFAULT_BODY_LIMIT_BYTES) {
            Ok(v) => v,
            Err(e) => return Err(e),
        };
        let retain_per_endpoint = match optional_i64_env(RETAIN_VAR, retain_per_endpoint, DEFAULT_RETAIN_PER_ENDPOINT) {
            Ok(v) => v,
            Err(e) => return Err(e),
        };
        if retain_per_endpoint < 1 {
            return Err(ConfigError::InvalidEnv { var: RETAIN_VAR, message: "must be >= 1".to_owned() });
        }
        Ok(Config {
            bind: args.bind,
            db_path: args.db_path,
            body_limit_bytes,
            retain_per_endpoint,
            dashboard_user,
            dashboard_password,
        })
    }
}

/// Settings are taken as given: with both credentials set, a body limit
/// that is unset or empty (1 MiB) or parses to `limit`, and a retention that
/// is unset or empty (250) or parses to `retain >= 1`, the configuration is
/// built and holds exactly those values and the given credentials, bind
/// address and database path.
pub proof fn law_settings_taken_as_given(
    args: CliArgs,
    env: EnvVars,
    res: Result<Config, ConfigError>,
    limit: int,
    retain: int,
)
    requires
        config_outcome(args, env, res),
        is_set(env.dashboard_user),
        is_set(env.dashboard_password),
        is_set(env.body_limit_bytes) ==> spec_parse_usize(env.body_limit_bytes->0@) == Ok::<int, IntErrorKind>(limit),
        !is_set(env.body_limit_bytes) ==> limit == 1_048_576,
        is_set(env.retain_per_endpoint) ==> spec_parse_i64(env.retain_per_endpoint->0@) == Ok::<int, IntErrorKind>(retain),
        !is_set(env.retain_per_endpoint) ==> retain == 250,
        retain >= 1,
    ensures
        res matches Ok(c) && {
            &&& c.body_limit_bytes as int == limit
            &&& c.retain_per_endpoint as int == retain
            &&& c.dashboard_user == env.dashboard_user->0
            &&& c.dashboard_password == env.dashboard_password->0
            &&& c.bind == args.bind
            &&& c.db_path == args.db_path
        },
{
}

} // verus!
