//! Service configuration assembled from the environment's raw values.
//!
//! The process reads its environment at the edge and hands the raw strings
//! in; this module owns the rules — the bus URL is required, the listener
//! port defaults to 3001 and must be a decimal 16-bit number, the log level
//! defaults to `info`.

use vstd::prelude::*;
use vstd::string::StringExecFns;
use vstd::utf8::encode_utf8;

verus! {

/// Why a configuration was rejected.
#[derive(Debug, Clone, PartialEq, Eq, Structural)]
pub enum ConfigError {
    /// No bus URL was supplied; the service cannot coordinate without one.
    MissingBusUrl,
    /// The supplied port is not a decimal number in `0..=65535`.
    InvalidPort,
}

/// The service's settings.
#[derive(Debug, Clone)]
pub struct Config {
    /// Connection URL of the pub/sub broker.
    pub redis_url: String,
    /// TCP port the listener binds.
    pub ws_port: u16,
    /// Logging verbosity.
    pub log_level: String,
}

/// Whether a byte is an ASCII decimal digit.
pub open spec fn is_ascii_digit(b: u8) -> bool {
    48 <= b <= 57
}

/// Whether a byte string is one or more decimal digits.
pub open spec fn all_digits(s: Seq<u8>) -> bool {
    s.len() > 0 && forall|i: int| 0 <= i < s.len() ==> is_ascii_digit(#[trigger] s[i])
}

/// The number a digit string denotes.
pub open spec fn dec_value(s: Seq<u8>) -> int
    decreases s.len(),
{
    if s.len() == 0 {
        0
    } else {
        dec_value(s.drop_last()) * 10 + (s.last() - 48)
    }
}

/// A digit string's value never shrinks as digits are appended.
proof fn lemma_dec_value_prefix(s: Seq<u8>, i: int, j: int)
    requires
        0 <= i <= j <= s.len(),
        forall|k: int| 0 <= k < s.len() ==> is_ascii_digit(#[trigger] s[k]),
    ensures
        dec_value(s.take(i)) <= dec_value(s.take(j)),
        dec_value(s.take(j)) >= 0,
    decreases j - i,
{
    if i == j {
        lemma_dec_value_nonneg(s.take(j), s);
    } else {
        lemma_dec_value_prefix(s, i, j - 1);
        assert(s.take(j).drop_last() =~= s.take(j - 1));
        assert(s.take(j).last() == s[j - 1]);
    }
}

/// Digit strings denote non-negative numbers.
proof fn lemma_dec_value_nonneg(p: Seq<u8>, s: Seq<u8>)
    requires
        p.len() <= s.len(),
        forall|k: int| 0 <= k < p.len() ==> p[k] == s[k],
        forall|k: int| 0 <= k < s.len() ==> is_ascii_digit(#[trigger] s[k]),
    ensures
        dec_value(p) >= 0,
    decreases p.len(),
{
    if p.len() > 0 {
        lemma_dec_value_nonneg(p.drop_last(), s);
        assert(p.last() == s[p.len() - 1]);
    }
}

/// Parse a decimal port number; `None` for anything that is not a digit
/// string denoting a value in `0..=65535`.
pub fn parse_port(s: &str) -> (r: Option<u16>)
    ensures
        (r is Some) == (all_digits(encode_utf8(s@)) && dec_value(encode_utf8(s@)) <= 65535),
        r matches Some(p) ==> p == dec_value(encode_utf8(s@)),
{
    let bytes = s.as_bytes();
    proof {
        assert(bytes@ == encode_utf8(s@));
    }
    let n = bytes.len();
    if n == 0 {
        return None;
    }
    let ghost full = bytes@;
    let mut acc: u32 = 0;
    for i in 0..n
        invariant
            n == full.len(),
            bytes@ == full,
            full == encode_utf8(s@),
            forall|k: int| 0 <= k < i ==> is_ascii_digit(#[trigger] full[k]),
            acc == dec_value(full.take(i as int)),
            acc <= 65535,
    {
        let b = bytes[i];
        if b < 48 || b > 57 {
            proof {
                assert(full[i as int] == b);
                assert(!is_ascii_digit(full[i as int]));
                assert(!all_digits(full));
            }
            return None;
        }
        proof {
            assert(full.take(i as int + 1).drop_last() =~= full.take(i as int));
            assert(full.take(i as int + 1).last() == full[i as int]);
        }
        acc = acc * 10 + (b - 48) as u32;
        if acc > 65535 {
            proof {
                assert(full[i as int] == b);
                assert(dec_value(full.take(i as int + 1)) == dec_value(full.take(i as int)) * 10
                    + (b - 48));
                assert(dec_value(full.take(i as int + 1)) > 65535);
                if all_digits(full) {
                    lemma_dec_value_prefix(full, i as int + 1, full.len() as int);
                    assert(full.take(full.len() as int) =~= full);
                    assert(dec_value(full) > 65535);
                }
            }
            return None;
        }
    }
    proof {
        assert(full.take(n as int) =~= full);
    }
    Some(acc as u16)
}

impl Config {
    /// Assemble the configuration from the environment's raw values: the
    /// bus URL is required, the port defaults to 3001, the log level to
    /// `info`.
    pub fn from_env(
        redis_url: Option<String>,
        ws_port: Option<String>,
        log_level: Option<String>,
    ) -> (r: Result<Config, ConfigError>)
        ensures
            redis_url is None ==> r == Err::<Config, ConfigError>(ConfigError::MissingBusUrl),
            redis_url is Some && (ws_port matches Some(p) && !(all_digits(encode_utf8(p@))
                && dec_value(encode_utf8(p@)) <= 65535)) ==> r == Err::<Config, ConfigError>(
                ConfigError::InvalidPort,
            ),
            (r is Ok) == (redis_url is Some && (ws_port matches Some(p) ==> all_digits(
                encode_utf8(p@),
            ) && dec_value(encode_utf8(p@)) <= 65535)),
            r matches Ok(c) ==> c.redis_url@ == redis_url->0@ && c.ws_port == (
            match ws_port {
                Some(p) => dec_value(encode_utf8(p@)),
                None => 3001int,
            }) && c.log_level@ == (match log_level {
                Some(l) => l@,
                None => "info"@,
            }),
    {
        let url = match redis_url {
            Some(u) => u,
            None => {
                return Err(ConfigError::MissingBusUrl);
            },
        };
        let port: u16 = match &ws_port {
            Some(p) => match parse_port(p.as_str()) {
                Some(v) => v,
                None => {
                    return Err(ConfigError::InvalidPort);
                },
            },
            None => 3001,
        };
        let level = match log_level {
            Some(l) => l,
            None => String::from_str("info"),
        };
        Ok(Config { redis_url: url, ws_port: port, log_level: level })
    }
}

} // verus!
