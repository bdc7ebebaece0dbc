use vstd::prelude::*;
use crate::text::chars_of;

verus! {

/// Every character is an ASCII digit.
pub open spec fn all_digits(s: Seq<char>) -> bool {
    forall|i: int| 0 <= i < s.len() ==> '0' <= #[trigger] s[i] <= '9'
}

/// The number that a run of decimal digits writes.
pub open spec fn digits_value(s: Seq<char>) -> int
    decreases s.len(),
{
    if s.len() == 0 {
        0
    } else {
        digits_value(s.drop_last()) * 10 + (s.last() as int - '0' as int)
    }
}

/// The number written by `s` if it is one or more decimal digits and at most `max`.
pub open spec fn decimal_value(s: Seq<char>, max: int) -> Option<int> {
    if s.len() > 0 && all_digits(s) && digits_value(s) <= max {
        Some(digits_value(s))
    } else {
        None
    }
}

pub proof fn lemma_prefix_value_below(s: Seq<char>, i: int)
    requires
        all_digits(s),
        0 <= i <= s.len(),
    ensures
        digits_value(s.take(i)) <= digits_value(s),
        0 <= digits_value(s.take(i)),
    decreases s.len() - i,
{
    if i < s.len() {
        lemma_prefix_value_below(s, i + 1);
        let t = s.take(i + 1);
        assert(t.drop_last() == s.take(i));
        assert(all_digits(s.take(i)));
        lemma_value_nonneg(s.take(i));
        assert(t.last() == s[i]);
    } else {
        assert(s.take(i) == s);
        lemma_value_nonneg(s);
    }
}

pub proof fn lemma_value_nonneg(s: Seq<char>)
    requires
        all_digits(s),
    ensures
        0 <= digits_value(s),
    decreases s.len(),
{
    if s.len() > 0 {
        assert(all_digits(s.drop_last()));
        lemma_value_nonneg(s.drop_last());
    }
}

/// Reads a decimal number of at most `max`: one or more ASCII digits, nothing else.
pub fn parse_decimal(s: &str, max: u64) -> (r: Option<u64>)
    ensures
        match decimal_value(s@, max as int) {
            Some(v) => r is Some && r->Some_0 as int == v,
            None => r is None,
        },
{
    let cs = chars_of(s);
    if cs.len() == 0 {
        return None;
    }
    let mut acc: u64 = 0;
    let mut i: usize = 0;
    while i < cs.len()
        invariant
            cs@ == s@,
            i <= cs@.len(),
            all_digits(cs@.take(i as int)),
            acc as int == digits_value(cs@.take(i as int)),
            acc <= max,
        decreases cs@.len() - i,
    {
        let c = cs[i];
        proof {
            assert(cs@.take(i + 1).drop_last() == cs@.take(i as int));
            assert(cs@.take(i + 1).last() == c);
        }
        if !('0' <= c && c <= '9') {
            return None;
        }
        let d = (c as u32 - '0' as u32) as u64;
        let next = match acc.checked_mul(10) {
            Some(m) => m.checked_add(d),
            None => None,
        };
        proof {
            assert(all_digits(cs@.take(i + 1))) by {
                assert forall|j: int| 0 <= j < i + 1 implies '0' <= #[trigger] cs@.take(i + 1)[j]
                    <= '9' by {
                    if j < i {
                        assert(cs@.take(i + 1)[j] == cs@.take(i as int)[j]);
                    }
                }
            }
        }
        match next {
            Some(v) => {
                if v > max {
                    proof {
                        if all_digits(s@) {
                            lemma_prefix_value_below(s@, i + 1);
                        }
                    }
                    return None;
                }
                acc = v;
            },
            None => {
                proof {
                    if all_digits(s@) {
                        lemma_prefix_value_below(s@, i + 1);
                    }
                }
                return None;
            },
        }
        i = i + 1;
    }
    proof {
        assert(cs@.take(cs@.len() as int) == s@);
    }
    Some(acc)
}

/// The number written by `s` as an unsigned integer of at most `max`: digits,
/// after an optional `+`.
pub open spec fn unsigned_value(s: Seq<char>, max: int) -> Option<int> {
    if s.len() > 0 && s[0] == '+' {
        decimal_value(s.drop_first(), max)
    } else {
        decimal_value(s, max)
    }
}

/// Reads an unsigned number of at most `max`: one or more ASCII digits,
/// after an optional `+`, as std reads an unsigned integer.
pub fn parse_unsigned(s: &str, max: u64) -> (r: Option<u64>)
    ensures
        match unsigned_value(s@, max as int) {
            Some(v) => r is Some && r->Some_0 as int == v,
            None => r is None,
        },
{
    let n = s.unicode_len();
    if n > 0 && s.get_char(0) == '+' {
        let rest = s.substring_char(1, n);
        proof {
            assert(rest@ =~= s@.drop_first());
        }
        parse_decimal(rest, max)
    } else {
        parse_decimal(s, max)
    }
}

/// Where the server listens and how many workers it runs.
#[derive(Clone, Debug)]
pub struct AppConfig {
    pub app_host: String,
    pub app_port: u16,
    pub worker_count: usize,
}

/// A setting that does not read as a number in range.
#[derive(Debug, PartialEq, Eq)]
pub enum ConfigError {
    InvalidPort,
    InvalidWorkerCount,
}

pub open spec fn opt_text(v: Option<String>) -> Option<Seq<char>> {
    match v {
        Some(s) => Some(s@),
        None => None,
    }
}

/// A setting's text, or the default where it is not set.
pub open spec fn or_default(v: Option<Seq<char>>, default: Seq<char>) -> Seq<char> {
    match v {
        Some(s) => s,
        None => default,
    }
}

impl AppConfig {
    /// The configuration from the host, port and worker count settings;
    /// `0.0.0.0`, `8080` and `1` stand for those that are not set.
    pub fn from_settings(
        host: Option<String>,
        port: Option<String>,
        workers: Option<String>,
    ) -> (r: Result<AppConfig, ConfigError>)
        ensures
            match unsigned_value(or_default(opt_text(port), "8080"@), u16::MAX as int) {
                None => r == Err::<AppConfig, ConfigError>(ConfigError::InvalidPort),
                Some(p) => match unsigned_value(
                    or_default(opt_text(workers), "1"@),
                    usize::MAX as int,
                ) {
                    None => r == Err::<AppConfig, ConfigError>(ConfigError::InvalidWorkerCount),
                    Some(w) => (r matches Ok(c) && c.app_host@ == or_default(
                        opt_text(host),
                        "0.0.0.0"@,
                    ) && c.app_port == p && c.worker_count == w),
                },
            },
    {
        let host = match host {
            Some(h) => h,
            None => "0.0.0.0".to_owned(),
        };
        let port_text = match port {
            Some(p) => p,
            None => "8080".to_owned(),
        };
        let worker_text = match workers {
            Some(w) => w,
            None => "1".to_owned(),
        };
        let app_port = match parse_unsigned(port_text.as_str(), u16::MAX as u64) {
            Some(p) => p as u16,
            None => {
                return Err(ConfigError::InvalidPort);
            },
        };
        let worker_count = match parse_unsigned(worker_text.as_str(), usize::MAX as u64) {
            Some(w) => w as usize,
            None => {
                return Err(ConfigError::InvalidWorkerCount);
            },
        };
        Ok(AppConfig { app_host: host, app_port, worker_count })
    }
}

/// The caller named by a session token.
#[derive(Clone, Debug)]
pub struct JwtUser {
    pub user_id: String,
    pub method: String,
}

/// The caller attached to a request once its token has been checked.
#[derive(Clone, Debug)]
pub struct RequestUser {
    pub user: JwtUser,
}

/// The caller that a token's claims name: the subject without its two-character
/// `0x` prefix, and the sign-in method. A subject shorter than that names nobody.
pub fn user_from_claims(subject: &str, method: &str) -> (r: Option<JwtUser>)
    ensures
        subject@.len() < 2 ==> r is None,
        subject@.len() >= 2 ==> (r matches Some(u) && u.user_id@ == subject@.skip(2) && u.method@
            == method@),
{
    let n = subject.unicode_len();
    if n < 2 {
        return None;
    }
    let id = subject.substring_char(2, n).to_owned();
    proof {
        assert(id@ =~= subject@.skip(2));
    }
    Some(JwtUser { user_id: id, method: method.to_owned() })
}

} // verus!
