//! Address and domain configuration parsing: host and port text into
//! structured endpoints, and domain normalization.

use vstd::prelude::*;
use crate::bytestr::{find_byte, find_byte_at, lemma_find_byte_char, trim_dots, trim_dots_len};
use crate::seed::trim_ws;

verus! {

/// The address family an endpoint was written in.
#[derive(Debug, Clone, Copy, PartialEq, Eq, Structural)]
pub enum AddressFamily {
    V4,
    V6,
}

/// Which configured address a parse error speaks about.
#[derive(Debug, Clone, Copy, PartialEq, Eq, Structural)]
pub enum AddressKind {
    Resolver,
    Target,
    Fallback,
}

impl AddressKind {
    /// The word used for this kind in error messages.
    pub fn label(&self) -> (r: &'static str)
        ensures
            *self is Resolver ==> r@ == "resolver"@,
            *self is Target ==> r@ == "target"@,
            *self is Fallback ==> r@ == "fallback"@,
    {
        match self {
            AddressKind::Resolver => "resolver",
            AddressKind::Target => "target",
            AddressKind::Fallback => "fallback",
        }
    }
}

/// A configuration error: what was rejected, in words.
#[derive(Debug, Clone)]
pub struct ConfigError {
    message: String,
}

impl ConfigError {
    /// The description this error carries, as spec text.
    pub closed spec fn spec_message(&self) -> Seq<char> {
        self.message@
    }

    /// Wraps a description of what was rejected.
    pub fn new(message: &str) -> (r: ConfigError)
        ensures
            r.spec_message() == message@,
    {
        ConfigError { message: message.to_owned() }
    }

    /// The description this error carries.
    pub fn message(&self) -> (r: &String)
        ensures
            r@ == self.spec_message(),
    {
        &self.message
    }
}

/// A parsed endpoint: host text, port, and the family its syntax implies.
#[derive(Debug, Clone)]
pub struct HostPort {
    pub host: Vec<u8>,
    pub port: u16,
    pub family: AddressFamily,
}

/// Whether `c` is an ASCII digit.
pub open spec fn is_digit(c: u8) -> bool {
    48 <= c && c <= 57
}

/// Whether every byte of `s` is an ASCII digit.
pub open spec fn all_digits(s: Seq<u8>) -> bool {
    forall|i: int| 0 <= i < s.len() ==> is_digit(#[trigger] s[i])
}

/// The number a digit string spells.
pub open spec fn digits_val(s: Seq<u8>) -> int
    decreases s.len(),
{
    if s.len() == 0 {
        0
    } else {
        digits_val(s.drop_last()) * 10 + (s.last() - 48)
    }
}

/// A digit string's value never shrinks as digits are appended.
pub proof fn lemma_digits_val_prefix(s: Seq<u8>, i: int)
    requires
        0 <= i <= s.len(),
        all_digits(s),
    ensures
        digits_val(s.take(i)) <= digits_val(s),
        digits_val(s) >= 0,
    decreases s.len() - i,
{
    if i == s.len() {
        assert(s.take(i) =~= s);
        lemma_digits_val_nonneg(s);
    } else {
        lemma_digits_val_prefix(s, i + 1);
        lemma_digits_val_nonneg(s.take(i));
        assert(s.take(i + 1).drop_last() =~= s.take(i));
        assert(s.take(i + 1).last() == s[i]);
        assert(is_digit(s[i]));
        assert(digits_val(s.take(i + 1)) == digits_val(s.take(i)) * 10 + (s[i] - 48));
        assert(digits_val(s.take(i)) * 10 >= digits_val(s.take(i))) by (nonlinear_arith)
            requires
                digits_val(s.take(i)) >= 0,
        ;
    }
}

/// A digit string's value is never negative.
pub proof fn lemma_digits_val_nonneg(s: Seq<u8>)
    requires
        all_digits(s),
    ensures
        digits_val(s) >= 0,
    decreases s.len(),
{
    if s.len() > 0 {
        assert(all_digits(s.drop_last())) by {
            assert(forall|i: int| 0 <= i < s.len() - 1 ==> s.drop_last()[i] == s[i]);
        }
        lemma_digits_val_nonneg(s.drop_last());
        assert(is_digit(s.last()));
        assert(digits_val(s.drop_last()) * 10 >= 0) by (nonlinear_arith)
            requires
                digits_val(s.drop_last()) >= 0,
        ;
    }
}

/// What a port string means: a non-empty digit run spelling one to 65535.
pub open spec fn spec_parse_port(s: Seq<u8>) -> Option<u16> {
    if s.len() > 0 && all_digits(s) && 1 <= digits_val(s) <= 65535 {
        Some(digits_val(s) as u16)
    } else {
        None
    }
}

/// Reads a port number; empty text, stray characters, zero and overflow
/// are refused.
pub fn parse_port_value(s: &[u8]) -> (r: Option<u16>)
    ensures
        r == spec_parse_port(s@),
{
    if s.len() == 0 {
        return None;
    }
    let mut val: u32 = 0;
    let mut i: usize = 0;
    while i < s.len()
        invariant
            i <= s@.len(),
            s@.len() > 0,
            all_digits(s@.take(i as int)),
            val == digits_val(s@.take(i as int)),
            val <= 65535,
        decreases s@.len() - i,
    {
        let c = s[i];
        if c < 48 || c > 57 {
            proof {
                assert(!is_digit(s@[i as int]));
                assert(!all_digits(s@));
            }
            return None;
        }
        let d = (c - 48) as u32;
        let next = val * 10 + d;
        proof {
            assert(s@.take(i + 1).drop_last() =~= s@.take(i as int));
            assert(s@.take(i + 1).last() == s@[i as int]);
        }
        if next > 65535 {
            proof {
                assert(digits_val(s@.take(i + 1)) == next);
                if all_digits(s@) {
                    lemma_digits_val_prefix(s@, i + 1);
                }
            }
            return None;
        }
        val = next;
        i = i + 1;
    }
    proof {
        assert(s@.take(s@.len() as int) =~= s@);
    }
    if val == 0 {
        return None;
    }
    Some(val as u16)
}

/// What host-and-port text means, at spec level.
///
/// Bracketed text is a literal with an optional `:port`; otherwise one
/// colon splits host from a digit-run port, and further colons are refused.
pub open spec fn spec_parse_host_port(s: Seq<u8>, default_port: u16) -> Option<
    (Seq<u8>, u16, AddressFamily),
> {
    if s.len() > 0 && s[0] == 91 {
        let rest = s.drop_first();
        let close = find_byte(rest, 93);
        if close < 0 {
            None
        } else {
            let host = rest.take(close);
            if host.len() == 0 {
                None
            } else {
                let rem = rest.skip(close + 1);
                if rem.len() == 0 {
                    Some((host, default_port, AddressFamily::V6))
                } else if rem[0] == 58 {
                    match spec_parse_port(rem.drop_first()) {
                        Some(p) => Some((host, p, AddressFamily::V6)),
                        None => None,
                    }
                } else {
                    None
                }
            }
        }
    } else {
        let colon = find_byte(s, 58);
        if colon < 0 {
            if s.len() == 0 {
                None
            } else {
                Some((s, default_port, AddressFamily::V4))
            }
        } else {
            let host = s.take(colon);
            let right = s.skip(colon + 1);
            if right.len() == 0 {
                None
            } else if !all_digits(right) {
                None
            } else {
                match spec_parse_port(right) {
                    Some(p) => if host.len() == 0 {
                        None
                    } else {
                        Some((host, p, AddressFamily::V4))
                    },
                    None => None,
                }
            }
        }
    }
}

/// Reads `host`, `host:port`, `[v6]` or `[v6]:port`; the kind only colours
/// the error message.
pub fn parse_host_port(input: &[u8], default_port: u16, kind: AddressKind) -> (r: Result<
    HostPort,
    ConfigError,
>)
    ensures
        r matches Ok(hp) ==> (spec_parse_host_port(input@, default_port) matches Some(t)
            && hp.host@ == t.0 && hp.port == t.1 && hp.family == t.2),
        r is Err ==> spec_parse_host_port(input@, default_port) is None,
{
    if input.len() > 0 && input[0] == 91 {
        let rest_vec = crate::dns_name::copy_range(input, 1, input.len());
        let ghost rest = input@.drop_first();
        proof {
            assert(rest_vec@ =~= rest);
        }
        let close = match find_byte_at(rest_vec.as_slice(), 93) {
            Some(c) => c,
            None => {
                return Err(ConfigError::new("invalid bracketed address: missing closing bracket"));
            },
        };
        proof {
            lemma_find_byte_char(rest, 93);
        }
        if close == 0 {
            return Err(ConfigError::new("invalid bracketed address: empty host"));
        }
        let host = crate::dns_name::copy_range(input, 1, 1 + close);
        proof {
            assert(host@ =~= rest.take(close as int));
        }
        let rem_start = 1 + close + 1;
        if rem_start >= input.len() {
            proof {
                assert(rest.skip(close + 1) =~= Seq::<u8>::empty());
            }
            return Ok(HostPort { host, port: default_port, family: AddressFamily::V6 });
        }
        proof {
            assert(rest.skip(close + 1) =~= input@.subrange(
                rem_start as int,
                input@.len() as int,
            ));
        }
        if input[rem_start] != 58 {
            proof {
                assert(rest.skip(close + 1)[0] == input@[rem_start as int]);
            }
            return Err(ConfigError::new("invalid bracketed address: junk after bracket"));
        }
        let port_bytes = crate::dns_name::copy_range(input, rem_start + 1, input.len());
        proof {
            assert(rest.skip(close + 1)[0] == input@[rem_start as int]);
            assert(port_bytes@ =~= rest.skip(close + 1).drop_first());
        }
        let port = match parse_port_value(port_bytes.as_slice()) {
            Some(p) => p,
            None => {
                return Err(ConfigError::new("invalid port number in bracketed address"));
            },
        };
        return Ok(HostPort { host, port, family: AddressFamily::V6 });
    }
    if input.len() == 0 {
        return Err(ConfigError::new("invalid address: empty"));
    }
    let colon = find_byte_at(input, 58);
    match colon {
        None => {
            let host = crate::bytestr::to_vec_bytes(input);
            Ok(HostPort { host, port: default_port, family: AddressFamily::V4 })
        },
        Some(c) => {
            proof {
                lemma_find_byte_char(input@, 58);
            }
            let right = crate::dns_name::copy_range(input, c + 1, input.len());
            proof {
                assert(right@ =~= input@.skip(c + 1));
            }
            if right.len() == 0 {
                return Err(ConfigError::new("invalid port number in address"));
            }
            let mut j: usize = 0;
            while j < right.len()
                invariant
                    j <= right@.len(),
                    all_digits(right@.take(j as int)),
                    right@ == input@.skip(c + 1),
                    find_byte(input@, 58) == c,
                    0 <= c < input@.len(),
                    input@.len() > 0,
                    input@[0] != 91,
                    right@.len() > 0,
                decreases right@.len() - j,
            {
                let ch = right[j];
                proof {
                    assert(right@.take(j + 1).drop_last() =~= right@.take(j as int));
                    assert(right@.take(j + 1).last() == right@[j as int]);
                }
                if ch < 48 || ch > 57 {
                    proof {
                        assert(!is_digit(right@[j as int]));
                        assert(!all_digits(right@));
                    }
                    return Err(ConfigError::new("invalid port number in address"));
                }
                proof {
                    assert(forall|q: int| 0 <= q < j ==> right@.take(j + 1)[q] == right@.take(
                        j as int,
                    )[q]);
                    assert(is_digit(right@.take(j + 1).last()));
                    assert(all_digits(right@.take(j + 1))) by {
                        assert forall|q: int| 0 <= q < j + 1 implies is_digit(
                            #[trigger] right@.take(j + 1)[q],
                        ) by {
                            if q < j {
                                assert(right@.take(j + 1)[q] == right@.take(j as int)[q]);
                            } else {
                                assert(right@.take(j + 1)[q] == right@[j as int]);
                            }
                        }
                    }
                }
                j = j + 1;
            }
            proof {
                assert(right@.take(right@.len() as int) =~= right@);
            }
            let port = match parse_port_value(right.as_slice()) {
                Some(p) => p,
                None => {
                    return Err(ConfigError::new("invalid port number in address"));
                },
            };
            if c == 0 {
                return Err(ConfigError::new("invalid address: empty host"));
            }
            let host = crate::dns_name::copy_range(input, 0, c);
            proof {
                assert(host@ =~= input@.take(c as int));
            }
            Ok(HostPort { host, port, family: AddressFamily::V4 })
        },
    }
}

/// Trims whitespace and trailing dots off a configured domain; what is
/// left must be non-empty.
pub fn normalize_domain(input: &[u8]) -> (r: Result<Vec<u8>, ConfigError>)
    ensures
        r is Ok <==> trim_dots(trim_ws(input@)).len() > 0,
        r matches Ok(v) ==> v@ == trim_dots(trim_ws(input@)),
{
    let (start, end) = crate::seed::trim_ws_range(input);
    let trimmed = crate::dns_name::copy_range(input, start, end);
    proof {
        assert(trimmed@ =~= trim_ws(input@));
    }
    let d_end = trim_dots_len(trimmed.as_slice());
    if d_end == 0 {
        return Err(ConfigError::new("domain must not be empty"));
    }
    let out = crate::dns_name::copy_range(trimmed.as_slice(), 0, d_end);
    proof {
        assert(out@ =~= trim_dots(trim_ws(input@)));
    }
    Ok(out)
}

/// Parses each resolver address with the DNS default port.
pub fn parse_resolver_addresses(addrs: &Vec<Vec<u8>>) -> (r: Result<Vec<HostPort>, ConfigError>)
    ensures
        r matches Ok(v) ==> v@.len() == addrs@.len() && forall|i: int|
            0 <= i < v@.len() ==> ((#[trigger] spec_parse_host_port(addrs.deep_view()[i], 53))
                is Some && v@[i].host@ == spec_parse_host_port(addrs.deep_view()[i], 53)->Some_0.0
                && v@[i].port == spec_parse_host_port(addrs.deep_view()[i], 53)->Some_0.1),
        r is Err ==> exists|i: int|
            0 <= i < addrs@.len() && (#[trigger] spec_parse_host_port(addrs.deep_view()[i], 53))
                is None,
{
    let mut parsed: Vec<HostPort> = Vec::new();
    let mut i: usize = 0;
    while i < addrs.len()
        invariant
            i <= addrs@.len(),
            parsed@.len() == i,
            forall|j: int|
                0 <= j < i ==> ((#[trigger] spec_parse_host_port(addrs.deep_view()[j], 53))
                    is Some && parsed@[j].host@ == spec_parse_host_port(
                    addrs.deep_view()[j],
                    53,
                )->Some_0.0 && parsed@[j].port == spec_parse_host_port(
                    addrs.deep_view()[j],
                    53,
                )->Some_0.1),
        decreases addrs@.len() - i,
    {
        proof {
            assert(addrs.deep_view()[i as int] == addrs@[i as int]@);
        }
        match parse_host_port(addrs[i].as_slice(), 53, AddressKind::Resolver) {
            Ok(hp) => {
                let ghost hpv = hp;
                parsed.push(hp);
                proof {
                    assert(parsed@[i as int] == hpv);
                    assert(addrs.deep_view()[i as int] == addrs@[i as int]@);
                    assert(spec_parse_host_port(addrs.deep_view()[i as int], 53) is Some);
                    assert(parsed@[i as int].host@ == spec_parse_host_port(
                        addrs.deep_view()[i as int],
                        53,
                    )->Some_0.0);
                    assert(parsed@[i as int].port == spec_parse_host_port(
                        addrs.deep_view()[i as int],
                        53,
                    )->Some_0.1);
                }
            },
            Err(e) => {
                return Err(e);
            },
        }
        i = i + 1;
    }
    Ok(parsed)
}

} // verus!
