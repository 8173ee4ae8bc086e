//! Client configuration parsing: domains, resolver lists, congestion
//! control and interval overrides out of plugin options, and the payload
//! MTU an apex allows.

use vstd::prelude::*;
use crate::bytestr::trim_dots;
use crate::error::ClientError;
use crate::net::{
    all_digits, digits_val, lemma_digits_val_prefix, spec_parse_host_port, parse_host_port,
    AddressFamily, AddressKind, ConfigError, HostPort,
};
use crate::resolver::{ResolverMode, ResolverSpec};
use crate::seed::{trim_ws, trim_ws_range};
use crate::sip003::{opts_view, spec_split_list, split_list, Sip003Option};

verus! {

/// The client's configuration, as the launcher assembles it.
#[derive(Debug, Clone)]
pub struct ClientConfig {
    pub tcp_listen_host: Vec<u8>,
    pub tcp_listen_port: u16,
    pub resolvers: Vec<ResolverSpec>,
    pub domain: Vec<u8>,
    pub cert: Option<Vec<u8>>,
    pub congestion_control: Option<Vec<u8>>,
    pub gso: bool,
    pub keep_alive_interval: usize,
    pub debug_poll: bool,
    pub debug_streams: bool,
    pub idle_poll_interval_ms: u64,
}

/// The plugin key naming the tunnel apex.
pub open spec fn domain_key() -> Seq<u8> {
    seq![100u8, 111u8, 109u8, 97u8, 105u8, 110u8]
}

/// What the domain plugin option means over the whole option list: at most
/// one occurrence, holding one entry that still has substance once dots go.
pub open spec fn spec_domain_option(
    opts: Seq<(Seq<u8>, Seq<u8>)>,
    i: int,
    acc: Option<Seq<u8>>,
) -> Option<Option<Seq<u8>>>
    decreases opts.len() - i,
{
    if i >= opts.len() {
        Some(acc)
    } else if opts[i].0 == domain_key() {
        if acc is Some {
            None
        } else {
            match spec_split_list(opts[i].1) {
                None => None,
                Some(entries) => {
                    if entries.len() != 1 {
                        None
                    } else {
                        let nd = trim_dots(trim_ws(entries[0]));
                        if nd.len() == 0 {
                            None
                        } else {
                            spec_domain_option(opts, i + 1, Some(nd))
                        }
                    }
                },
            }
        }
    } else {
        spec_domain_option(opts, i + 1, acc)
    }
}

/// Reads the apex out of the plugin options: one `domain` option with one
/// normalized entry, or none at all.
pub fn parse_domain_option(options: &Vec<Sip003Option>) -> (r: Result<Option<Vec<u8>>, ConfigError>)
    ensures
        r is Ok <==> spec_domain_option(opts_view(options@), 0, None) is Some,
        r matches Ok(d) ==> ({
            let sd = spec_domain_option(opts_view(options@), 0, None)->Some_0;
            match d {
                Option::Some(v) => sd == Some(v@),
                Option::None => sd is None,
            }
        }),
{
    let ghost ov = opts_view(options@);
    let key: [u8; 6] = [100, 111, 109, 97, 105, 110];
    proof {
        assert(key@ =~= domain_key());
    }
    let mut domain: Option<Vec<u8>> = None;
    let mut i: usize = 0;
    while i < options.len()
        invariant
            i <= options@.len(),
            ov == opts_view(options@),
            ov.len() == options@.len(),
            key@ == domain_key(),
            spec_domain_option(ov, 0, None) == spec_domain_option(
                ov,
                i as int,
                match &domain {
                    Option::Some(v) => Some(v@),
                    Option::None => None,
                },
            ),
        decreases options@.len() - i,
    {
        let ghost acc0: Option<Seq<u8>> = match &domain {
            Option::Some(v) => Some(v@),
            Option::None => None,
        };
        proof {
            assert(ov[i as int].0 == options@[i as int].key@);
            assert(ov[i as int].1 == options@[i as int].value@);
        }
        if crate::bytestr::bytes_eq(options[i].key.as_slice(), key.as_slice()) {
            proof {
                assert(ov[i as int].0 == domain_key());
            }
            if domain.is_some() {
                proof {
                    assert(spec_domain_option(ov, i as int, acc0) is None);
                }
                return Err(ConfigError::new("the domain option must not be repeated"));
            }
            let entries = match split_list(options[i].value.as_slice()) {
                Ok(v) => v,
                Err(e) => {
                    proof {
                        assert(spec_split_list(ov[i as int].1) is None);
                        assert(spec_domain_option(ov, i as int, acc0) is None);
                    }
                    return Err(e);
                },
            };
            proof {
                assert(entries.deep_view() == spec_split_list(ov[i as int].1)->Some_0);
            }
            if entries.len() != 1 {
                proof {
                    assert(spec_domain_option(ov, i as int, acc0) is None);
                }
                return Err(ConfigError::new("the domain option must hold a single value"));
            }
            proof {
                assert(entries.deep_view()[0] == entries@[0]@);
            }
            let normalized = match crate::net::normalize_domain(entries[0].as_slice()) {
                Ok(v) => v,
                Err(e) => {
                    proof {
                        assert(trim_dots(trim_ws(entries@[0]@)).len() == 0);
                        assert(spec_domain_option(ov, i as int, acc0) is None);
                    }
                    return Err(e);
                },
            };
            proof {
                assert(normalized@ == trim_dots(trim_ws(entries@[0]@)));
                assert(spec_domain_option(ov, i as int, acc0) == spec_domain_option(
                    ov,
                    i + 1,
                    Some(normalized@),
                ));
            }
            domain = Some(normalized);
        } else {
            proof {
                assert(ov[i as int].0 != domain_key());
                assert(spec_domain_option(ov, i as int, acc0) == spec_domain_option(
                    ov,
                    i + 1,
                    acc0,
                ));
            }
        }
        i = i + 1;
    }
    proof {
        assert(spec_domain_option(
            ov,
            options@.len() as int,
            match &domain {
                Option::Some(v) => Some(v@),
                Option::None => None,
            },
        ) == Some(
            match &domain {
                Option::Some(v) => Some(v@),
                Option::None => None::<Seq<u8>>,
            },
        ));
    }
    Ok(domain)
}

/// Resolver entries found in the plugin options, with the mode each key
/// implies, plus whether a bare `authoritative` flag stood alone.
#[derive(Debug, Clone)]
pub struct ResolverOptions {
    pub resolvers: Vec<ResolverSpec>,
    pub authoritative_remote: bool,
}

/// The plugin key for recursive resolvers.
pub open spec fn resolver_key() -> Seq<u8> {
    seq![114u8, 101u8, 115u8, 111u8, 108u8, 118u8, 101u8, 114u8]
}

/// The plugin key for authoritative resolvers.
pub open spec fn authoritative_opt_key() -> Seq<u8> {
    seq![97u8, 117u8, 116u8, 104u8, 111u8, 114u8, 105u8, 116u8, 97u8, 116u8, 105u8, 118u8, 101u8]
}

/// The spec view of a resolver-spec list: endpoint text, port, family and
/// mode per entry.
pub open spec fn resolver_specs_view(v: Seq<ResolverSpec>) -> Seq<
    (Seq<u8>, u16, AddressFamily, ResolverMode),
> {
    v.map_values(
        |rs: ResolverSpec| (rs.resolver.host@, rs.resolver.port, rs.resolver.family, rs.mode),
    )
}

/// The resolver specs one option's entries produce, in order; an entry
/// that does not parse as an endpoint refuses the whole option.
pub open spec fn spec_resolver_entries(entries: Seq<Seq<u8>>, j: int, mode: ResolverMode) -> Option<
    Seq<(Seq<u8>, u16, AddressFamily, ResolverMode)>,
>
    decreases entries.len() - j,
{
    if j >= entries.len() {
        Some(Seq::empty())
    } else {
        match spec_parse_host_port(entries[j], 53) {
            None => None,
            Some(t) => match spec_resolver_entries(entries, j + 1, mode) {
                None => None,
                Some(rest) => Some(seq![(t.0, t.1, t.2, mode)] + rest),
            },
        }
    }
}

/// What the resolver options from position `i` on mean: the specs in list
/// order and whether a bare `authoritative` flag stood alone; an empty
/// `resolver` value or a malformed entry refuses the list.
pub open spec fn spec_resolver_options(opts: Seq<(Seq<u8>, Seq<u8>)>, i: int) -> Option<
    (Seq<(Seq<u8>, u16, AddressFamily, ResolverMode)>, bool),
>
    decreases opts.len() - i,
{
    if i >= opts.len() {
        Some((Seq::empty(), false))
    } else if opts[i].0 != resolver_key() && opts[i].0 != authoritative_opt_key() {
        spec_resolver_options(opts, i + 1)
    } else {
        let mode = if opts[i].0 == authoritative_opt_key() {
            ResolverMode::Authoritative
        } else {
            ResolverMode::Recursive
        };
        if trim_ws(opts[i].1).len() == 0 {
            if opts[i].0 == authoritative_opt_key() {
                match spec_resolver_options(opts, i + 1) {
                    None => None,
                    Some(rest) => Some((rest.0, true)),
                }
            } else {
                None
            }
        } else {
            match spec_split_list(opts[i].1) {
                None => None,
                Some(entries) => match spec_resolver_entries(entries, 0, mode) {
                    None => None,
                    Some(list) => match spec_resolver_options(opts, i + 1) {
                        None => None,
                        Some(rest) => Some((list + rest.0, rest.1)),
                    },
                },
            }
        }
    }
}

/// Reads resolver specs out of the plugin options, keeping list order; an
/// empty `authoritative` value sets the remote-mode flag instead, an empty
/// `resolver` value is refused, and each entry must parse as an endpoint.
pub fn parse_resolvers_from_options(options: &Vec<Sip003Option>) -> (r: Result<
    ResolverOptions,
    ConfigError,
>)
    ensures
        r is Ok <==> spec_resolver_options(opts_view(options@), 0) is Some,
        r matches Ok(ro) ==> resolver_specs_view(ro.resolvers@) == spec_resolver_options(
            opts_view(options@),
            0,
        )->Some_0.0 && ro.authoritative_remote == spec_resolver_options(
            opts_view(options@),
            0,
        )->Some_0.1,
{
    let ghost ov = opts_view(options@);
    let rkey: [u8; 8] = [114, 101, 115, 111, 108, 118, 101, 114];
    let akey: [u8; 13] = [97, 117, 116, 104, 111, 114, 105, 116, 97, 116, 105, 118, 101];
    proof {
        assert(rkey@ =~= resolver_key());
        assert(akey@ =~= authoritative_opt_key());
    }
    let mut ordered: Vec<ResolverSpec> = Vec::new();
    let mut authoritative_remote = false;
    let mut i: usize = 0;
    proof {
        assert(resolver_specs_view(ordered@) =~~= Seq::<
            (Seq<u8>, u16, AddressFamily, ResolverMode),
        >::empty());
    }
    while i < options.len()
        invariant
            i <= options@.len(),
            ov == opts_view(options@),
            ov.len() == options@.len(),
            rkey@ == resolver_key(),
            akey@ == authoritative_opt_key(),
            match spec_resolver_options(ov, i as int) {
                Option::Some(t) => spec_resolver_options(ov, 0) == Some(
                    (resolver_specs_view(ordered@) + t.0, authoritative_remote || t.1),
                ),
                Option::None => spec_resolver_options(ov, 0) is None,
            },
        decreases options@.len() - i,
    {
        let ghost acc = resolver_specs_view(ordered@);
        let ghost ar0 = authoritative_remote;
        proof {
            assert(ov[i as int].0 == options@[i as int].key@);
            assert(ov[i as int].1 == options@[i as int].value@);
        }
        let is_resolver = crate::bytestr::bytes_eq(options[i].key.as_slice(), rkey.as_slice());
        let is_auth = crate::bytestr::bytes_eq(options[i].key.as_slice(), akey.as_slice());
        if !is_resolver && !is_auth {
            proof {
                assert(spec_resolver_options(ov, i as int) == spec_resolver_options(ov, i + 1));
            }
            i = i + 1;
            continue ;
        }
        let mode = if is_auth {
            ResolverMode::Authoritative
        } else {
            ResolverMode::Recursive
        };
        let (ts, te) = trim_ws_range(options[i].value.as_slice());
        if te - ts == 0 {
            proof {
                assert(trim_ws(ov[i as int].1).len() == 0);
            }
            if is_auth {
                proof {
                    if spec_resolver_options(ov, i + 1) is Some {
                        let rest = spec_resolver_options(ov, i + 1)->Some_0;
                        assert(spec_resolver_options(ov, i as int) == Some((rest.0, true)));
                        assert((ar0 || true) == ((true || rest.1) == true || (ar0 || rest.1)
                            == true));
                    }
                }
                authoritative_remote = true;
                i = i + 1;
                continue ;
            }
            proof {
                assert(spec_resolver_options(ov, i as int) is None);
            }
            return Err(ConfigError::new("an empty resolver value is not allowed"));
        }
        proof {
            assert(trim_ws(ov[i as int].1).len() > 0);
        }
        let entries = match split_list(options[i].value.as_slice()) {
            Ok(v) => v,
            Err(e) => {
                proof {
                    assert(spec_split_list(ov[i as int].1) is None);
                    assert(spec_resolver_options(ov, i as int) is None);
                }
                return Err(e);
            },
        };
        let ghost edv = entries.deep_view();
        proof {
            assert(edv == spec_split_list(ov[i as int].1)->Some_0);
        }
        let ghost base = resolver_specs_view(ordered@);
        let mut j: usize = 0;
        while j < entries.len()
            invariant
                j <= entries@.len(),
                edv == entries.deep_view(),
                edv.len() == entries@.len(),
                resolver_specs_view(ordered@).len() >= base.len(),
                base =~~= resolver_specs_view(ordered@).take(base.len() as int),
                i < ov.len(),
                ov == opts_view(options@),
                ov[i as int].0 == (if mode is Authoritative {
                    authoritative_opt_key()
                } else {
                    resolver_key()
                }),
                trim_ws(ov[i as int].1).len() > 0,
                spec_split_list(ov[i as int].1) == Some(edv),
                authoritative_remote == ar0,
                acc =~~= base,
                match spec_resolver_options(ov, i as int) {
                    Option::Some(t) => spec_resolver_options(ov, 0) == Some(
                        (base + t.0, ar0 || t.1),
                    ),
                    Option::None => spec_resolver_options(ov, 0) is None,
                },
                match spec_resolver_entries(edv, j as int, mode) {
                    Option::Some(list) => spec_resolver_entries(edv, 0, mode) == Some(
                        resolver_specs_view(ordered@).skip(base.len() as int) + list,
                    ),
                    Option::None => spec_resolver_entries(edv, 0, mode) is None,
                },
            decreases entries@.len() - j,
        {
            let ghost seg = resolver_specs_view(ordered@).skip(base.len() as int);
            proof {
                assert(edv[j as int] == entries@[j as int]@);
            }
            let resolver = match parse_host_port(entries[j].as_slice(), 53, AddressKind::Resolver) {
                Ok(hp) => hp,
                Err(e) => {
                    proof {
                        assert(spec_parse_host_port(edv[j as int], 53) is None);
                        assert(spec_resolver_entries(edv, j as int, mode) is None);
                        assert(spec_resolver_entries(edv, 0, mode) is None);
                        assert(spec_resolver_options(ov, i as int) is None);
                    }
                    return Err(e);
                },
            };
            let ghost hpt = (resolver.host@, resolver.port, resolver.family, mode);
            proof {
                assert(spec_parse_host_port(edv[j as int], 53) == Some(
                    (resolver.host@, resolver.port, resolver.family),
                ));
            }
            let ghost before = resolver_specs_view(ordered@);
            ordered.push(ResolverSpec { resolver, mode });
            proof {
                assert(resolver_specs_view(ordered@) =~~= before.push(hpt));
                assert(resolver_specs_view(ordered@).take(base.len() as int) =~~= base);
                assert(resolver_specs_view(ordered@).skip(base.len() as int) =~~= seg.push(hpt));
                if spec_resolver_entries(edv, j + 1, mode) is Some {
                    let rest = spec_resolver_entries(edv, j + 1, mode)->Some_0;
                    assert(spec_resolver_entries(edv, j as int, mode) == Some(
                        seq![hpt] + rest,
                    ));
                    assert(seg + (seq![hpt] + rest) =~~= (seg.push(hpt)) + rest);
                }
            }
            j = j + 1;
        }
        proof {
            let seg = resolver_specs_view(ordered@).skip(base.len() as int);
            assert(spec_resolver_entries(edv, entries@.len() as int, mode) == Some(Seq::<
                (Seq<u8>, u16, AddressFamily, ResolverMode),
            >::empty()));
            assert(seg + Seq::<(Seq<u8>, u16, AddressFamily, ResolverMode)>::empty() =~~= seg);
            assert(spec_resolver_entries(edv, 0, mode) == Some(seg));
            if spec_resolver_options(ov, i + 1) is Some {
                let rest = spec_resolver_options(ov, i + 1)->Some_0;
                assert(spec_resolver_options(ov, i as int) == Some((seg + rest.0, rest.1)));
                assert(base + (seg + rest.0) =~~= resolver_specs_view(ordered@) + rest.0);
            }
        }
        i = i + 1;
    }
    proof {
        assert(spec_resolver_options(ov, options@.len() as int) == Some(
            (Seq::<(Seq<u8>, u16, AddressFamily, ResolverMode)>::empty(), false),
        ));
        assert(resolver_specs_view(ordered@) + Seq::<
            (Seq<u8>, u16, AddressFamily, ResolverMode),
        >::empty() =~~= resolver_specs_view(ordered@));
    }
    Ok(ResolverOptions { resolvers: ordered, authoritative_remote })
}

/// The two accepted congestion-control names.
pub open spec fn cc_bbr() -> Seq<u8> {
    seq![98u8, 98u8, 114u8]
}

/// The name of the delay-based controller.
pub open spec fn cc_dcubic() -> Seq<u8> {
    seq![100u8, 99u8, 117u8, 98u8, 105u8, 99u8]
}

/// The plugin key for the congestion controller.
pub open spec fn cc_key() -> Seq<u8> {
    seq![
        99u8, 111u8, 110u8, 103u8, 101u8, 115u8, 116u8, 105u8, 111u8, 110u8, 45u8, 99u8, 111u8,
        110u8, 116u8, 114u8, 111u8, 108u8,
    ]
}

/// Whether a congestion-control value names a known controller.
pub open spec fn cc_value_ok(v: Seq<u8>) -> bool {
    v == cc_bbr() || v == cc_dcubic()
}

/// Reads the congestion-control override: every occurrence must name a
/// known controller, and the last one wins.
pub fn parse_congestion_control(options: &Vec<Sip003Option>) -> (r: Result<
    Option<Vec<u8>>,
    ConfigError,
>)
    ensures
        r is Err <==> exists|j: int|
            0 <= j < opts_view(options@).len() && (#[trigger] opts_view(options@)[j]).0 == cc_key()
                && !cc_value_ok(trim_ws(opts_view(options@)[j].1)),
        r matches Ok(v) ==> (match v {
            Option::Some(name) => crate::sip003::spec_last_option(opts_view(options@), cc_key())
                == Some(name@) && cc_value_ok(name@),
            Option::None => crate::sip003::spec_last_option(opts_view(options@), cc_key())
                is None,
        }),
{
    let ghost ov = opts_view(options@);
    let key: [u8; 18] = [
        99,
        111,
        110,
        103,
        101,
        115,
        116,
        105,
        111,
        110,
        45,
        99,
        111,
        110,
        116,
        114,
        111,
        108,
    ];
    let bbr: [u8; 3] = [98, 98, 114];
    let dcubic: [u8; 6] = [100, 99, 117, 98, 105, 99];
    proof {
        assert(key@ =~= cc_key());
        assert(bbr@ =~= cc_bbr());
        assert(dcubic@ =~= cc_dcubic());
    }
    let mut last: Option<Vec<u8>> = None;
    let mut i: usize = 0;
    proof {
        assert(ov.take(0) =~~= Seq::<(Seq<u8>, Seq<u8>)>::empty());
    }
    while i < options.len()
        invariant
            i <= options@.len(),
            ov == opts_view(options@),
            ov.len() == options@.len(),
            key@ == cc_key(),
            bbr@ == cc_bbr(),
            dcubic@ == cc_dcubic(),
            forall|j: int|
                0 <= j < i && (#[trigger] ov[j]).0 == cc_key() ==> cc_value_ok(trim_ws(ov[j].1)),
            match &last {
                Option::Some(v) => crate::sip003::spec_last_option(ov.take(i as int), cc_key())
                    == Some(v@) && (v@ == cc_bbr() || v@ == cc_dcubic()),
                Option::None => crate::sip003::spec_last_option(ov.take(i as int), cc_key())
                    is None,
            },
        decreases options@.len() - i,
    {
        proof {
            assert(ov[i as int].0 == options@[i as int].key@);
            assert(ov[i as int].1 == options@[i as int].value@);
            assert(ov.take(i + 1).drop_last() =~~= ov.take(i as int));
            assert(ov.take(i + 1).last() == ov[i as int]);
        }
        if crate::bytestr::bytes_eq(options[i].key.as_slice(), key.as_slice()) {
            proof {
                assert(ov[i as int].0 == cc_key());
                assert(ov.take(i + 1).last().0 == cc_key());
            }
            let (ts, te) = trim_ws_range(options[i].value.as_slice());
            let value = crate::dns_name::copy_range(options[i].value.as_slice(), ts, te);
            proof {
                assert(value@ =~= trim_ws(options@[i as int].value@));
            }
            let is_bbr = crate::bytestr::bytes_eq(value.as_slice(), bbr.as_slice());
            let is_dcubic = crate::bytestr::bytes_eq(value.as_slice(), dcubic.as_slice());
            if !is_bbr && !is_dcubic {
                proof {
                    assert(!cc_value_ok(trim_ws(ov[i as int].1)));
                }
                return Err(ConfigError::new("invalid congestion-control value"));
            }
            proof {
                assert(crate::sip003::spec_last_option(ov.take(i + 1), cc_key()) == Some(
                    trim_ws(ov[i as int].1),
                ));
            }
            last = Some(value);
        } else {
            proof {
                assert(ov[i as int].0 != cc_key());
                assert(ov.take(i + 1).last().0 != cc_key());
                assert(crate::sip003::spec_last_option(ov.take(i + 1), cc_key())
                    == crate::sip003::spec_last_option(ov.take(i as int), cc_key()));
            }
        }
        i = i + 1;
    }
    proof {
        assert(ov.take(options@.len() as int) =~~= ov);
    }
    Ok(last)
}

/// Reads an unsigned decimal with a bound; stray characters and overflow
/// are refused, and an empty string means the value is absent.
fn parse_u64_bounded(s: &[u8], bound: u64) -> (r: Option<u64>)
    ensures
        r matches Some(v) ==> s@.len() > 0 && all_digits(s@) && digits_val(s@) == v && v <= bound,
        r is None ==> (s@.len() == 0 || !all_digits(s@) || digits_val(s@) > bound),
{
    if s.len() == 0 {
        return None;
    }
    let mut val: u64 = 0;
    let mut i: usize = 0;
    while i < s.len()
        invariant
            i <= s@.len(),
            s@.len() > 0,
            all_digits(s@.take(i as int)),
            val == digits_val(s@.take(i as int)),
            val <= bound,
        decreases s@.len() - i,
    {
        let c = s[i];
        if c < 48 || c > 57 {
            proof {
                assert(!crate::net::is_digit(s@[i as int]));
                assert(!all_digits(s@));
            }
            return None;
        }
        proof {
            assert(s@.take(i + 1).drop_last() =~= s@.take(i as int));
            assert(s@.take(i + 1).last() == s@[i as int]);
        }
        if val > bound / 10 || (val == bound / 10 && (c - 48) as u64 > bound % 10) {
            proof {
                vstd::arithmetic::div_mod::lemma_fundamental_div_mod(bound as int, 10);
                assert(digits_val(s@.take(i + 1)) > bound);
                if all_digits(s@) {
                    lemma_digits_val_prefix(s@, i + 1);
                }
            }
            return None;
        }
        proof {
            vstd::arithmetic::div_mod::lemma_fundamental_div_mod(bound as int, 10);
            assert(val * 10 + (c - 48) <= bound) by (nonlinear_arith)
                requires
                    val as int <= (bound as int) / 10,
                    (c - 48) as int <= 9,
                    bound as int == 10 * ((bound as int) / 10) + (bound as int) % 10,
                    0 <= (bound as int) % 10 < 10,
                    !(val as int > (bound as int) / 10) && !(val as int == (bound as int) / 10
                        && (c - 48) as int > (bound as int) % 10),
            ;
        }
        val = val * 10 + (c - 48) as u64;
        i = i + 1;
    }
    proof {
        assert(s@.take(s@.len() as int) =~= s@);
    }
    Some(val)
}

/// The plugin key for the keep-alive interval.
pub open spec fn keep_alive_key() -> Seq<u8> {
    seq![
        107u8, 101u8, 101u8, 112u8, 45u8, 97u8, 108u8, 105u8, 118u8, 101u8, 45u8, 105u8, 110u8,
        116u8, 101u8, 114u8, 118u8, 97u8, 108u8,
    ]
}

/// Whether a trimmed value spells a number within `bound`.
pub open spec fn numeric_value_ok(v: Seq<u8>, bound: int) -> bool {
    v.len() > 0 && all_digits(v) && digits_val(v) <= bound
}

/// Reads the keep-alive override: every occurrence must be a sixteen-bit
/// number of milliseconds, and the last one wins.
pub fn parse_keep_alive_interval(options: &Vec<Sip003Option>) -> (r: Result<
    Option<u16>,
    ConfigError,
>)
    ensures
        r is Err <==> exists|j: int|
            0 <= j < opts_view(options@).len() && (#[trigger] opts_view(options@)[j]).0
                == keep_alive_key() && !numeric_value_ok(trim_ws(opts_view(options@)[j].1), 65535),
        r matches Ok(v) ==> (match v {
            Option::Some(n) => crate::sip003::spec_last_option(
                opts_view(options@),
                keep_alive_key(),
            ) matches Some(t) && numeric_value_ok(t, 65535) && digits_val(t) == n,
            Option::None => crate::sip003::spec_last_option(opts_view(options@), keep_alive_key())
                is None,
        }),
{
    let ghost ov = opts_view(options@);
    let key: [u8; 19] = [
        107,
        101,
        101,
        112,
        45,
        97,
        108,
        105,
        118,
        101,
        45,
        105,
        110,
        116,
        101,
        114,
        118,
        97,
        108,
    ];
    proof {
        assert(key@ =~= keep_alive_key());
        assert(ov.take(0) =~~= Seq::<(Seq<u8>, Seq<u8>)>::empty());
    }
    let mut last: Option<u16> = None;
    let mut i: usize = 0;
    while i < options.len()
        invariant
            i <= options@.len(),
            ov == opts_view(options@),
            ov.len() == options@.len(),
            key@ == keep_alive_key(),
            forall|j: int|
                0 <= j < i && (#[trigger] ov[j]).0 == keep_alive_key() ==> numeric_value_ok(
                    trim_ws(ov[j].1),
                    65535,
                ),
            match &last {
                Option::Some(n) => crate::sip003::spec_last_option(
                    ov.take(i as int),
                    keep_alive_key(),
                ) matches Some(t) && numeric_value_ok(t, 65535) && digits_val(t) == n as int,
                Option::None => crate::sip003::spec_last_option(ov.take(i as int), keep_alive_key())
                    is None,
            },
        decreases options@.len() - i,
    {
        proof {
            assert(ov[i as int].0 == options@[i as int].key@);
            assert(ov[i as int].1 == options@[i as int].value@);
            assert(ov.take(i + 1).drop_last() =~~= ov.take(i as int));
            assert(ov.take(i + 1).last() == ov[i as int]);
        }
        if crate::bytestr::bytes_eq(options[i].key.as_slice(), key.as_slice()) {
            let (ts, te) = trim_ws_range(options[i].value.as_slice());
            let value = crate::dns_name::copy_range(options[i].value.as_slice(), ts, te);
            proof {
                assert(value@ =~= trim_ws(ov[i as int].1));
            }
            let parsed = match parse_u64_bounded(value.as_slice(), 65535) {
                Some(v) => v,
                None => {
                    proof {
                        assert(!numeric_value_ok(trim_ws(ov[i as int].1), 65535));
                    }
                    return Err(ConfigError::new("invalid keep-alive-interval value"));
                },
            };
            proof {
                assert(crate::sip003::spec_last_option(ov.take(i + 1), keep_alive_key()) == Some(
                    trim_ws(ov[i as int].1),
                ));
            }
            last = Some(parsed as u16);
        } else {
            proof {
                assert(ov.take(i + 1).last().0 != keep_alive_key());
                assert(crate::sip003::spec_last_option(ov.take(i + 1), keep_alive_key())
                    == crate::sip003::spec_last_option(ov.take(i as int), keep_alive_key()));
            }
        }
        i = i + 1;
    }
    proof {
        assert(ov.take(options@.len() as int) =~~= ov);
    }
    Ok(last)
}

/// The plugin key for the idle-poll interval.
pub open spec fn idle_poll_key() -> Seq<u8> {
    seq![
        105u8, 100u8, 108u8, 101u8, 45u8, 112u8, 111u8, 108u8, 108u8, 45u8, 105u8, 110u8, 116u8,
        101u8, 114u8, 118u8, 97u8, 108u8,
    ]
}

/// Reads the idle-poll override: every occurrence must be a number of
/// milliseconds, and the last one wins.
pub fn parse_idle_poll_interval(options: &Vec<Sip003Option>) -> (r: Result<
    Option<u64>,
    ConfigError,
>)
    ensures
        r is Err <==> exists|j: int|
            0 <= j < opts_view(options@).len() && (#[trigger] opts_view(options@)[j]).0
                == idle_poll_key() && !numeric_value_ok(
                trim_ws(opts_view(options@)[j].1),
                u64::MAX as int,
            ),
        r matches Ok(v) ==> (match v {
            Option::Some(n) => crate::sip003::spec_last_option(
                opts_view(options@),
                idle_poll_key(),
            ) matches Some(t) && numeric_value_ok(t, u64::MAX as int) && digits_val(t) == n,
            Option::None => crate::sip003::spec_last_option(opts_view(options@), idle_poll_key())
                is None,
        }),
{
    let ghost ov = opts_view(options@);
    let key: [u8; 18] = [
        105,
        100,
        108,
        101,
        45,
        112,
        111,
        108,
        108,
        45,
        105,
        110,
        116,
        101,
        114,
        118,
        97,
        108,
    ];
    proof {
        assert(key@ =~= idle_poll_key());
        assert(ov.take(0) =~~= Seq::<(Seq<u8>, Seq<u8>)>::empty());
    }
    let mut last: Option<u64> = None;
    let mut i: usize = 0;
    while i < options.len()
        invariant
            i <= options@.len(),
            ov == opts_view(options@),
            ov.len() == options@.len(),
            key@ == idle_poll_key(),
            forall|j: int|
                0 <= j < i && (#[trigger] ov[j]).0 == idle_poll_key() ==> numeric_value_ok(
                    trim_ws(ov[j].1),
                    u64::MAX as int,
                ),
            match &last {
                Option::Some(n) => crate::sip003::spec_last_option(
                    ov.take(i as int),
                    idle_poll_key(),
                ) matches Some(t) && numeric_value_ok(t, u64::MAX as int) && digits_val(t)
                    == n as int,
                Option::None => crate::sip003::spec_last_option(ov.take(i as int), idle_poll_key())
                    is None,
            },
        decreases options@.len() - i,
    {
        proof {
            assert(ov[i as int].0 == options@[i as int].key@);
            assert(ov[i as int].1 == options@[i as int].value@);
            assert(ov.take(i + 1).drop_last() =~~= ov.take(i as int));
            assert(ov.take(i + 1).last() == ov[i as int]);
        }
        if crate::bytestr::bytes_eq(options[i].key.as_slice(), key.as_slice()) {
            let (ts, te) = trim_ws_range(options[i].value.as_slice());
            let value = crate::dns_name::copy_range(options[i].value.as_slice(), ts, te);
            proof {
                assert(value@ =~= trim_ws(ov[i as int].1));
            }
            let parsed = match parse_u64_bounded(value.as_slice(), 0xFFFF_FFFF_FFFF_FFFF) {
                Some(v) => v,
                None => {
                    proof {
                        assert(!numeric_value_ok(trim_ws(ov[i as int].1), u64::MAX as int));
                    }
                    return Err(ConfigError::new("invalid idle-poll-interval value"));
                },
            };
            proof {
                assert(crate::sip003::spec_last_option(ov.take(i + 1), idle_poll_key()) == Some(
                    trim_ws(ov[i as int].1),
                ));
            }
            last = Some(parsed);
        } else {
            proof {
                assert(ov.take(i + 1).last().0 != idle_poll_key());
                assert(crate::sip003::spec_last_option(ov.take(i + 1), idle_poll_key())
                    == crate::sip003::spec_last_option(ov.take(i as int), idle_poll_key()));
            }
        }
        i = i + 1;
    }
    proof {
        assert(ov.take(options@.len() as int) =~~= ov);
    }
    Ok(last)
}

/// Reads the connection cap: a positive 32-bit number.
pub fn parse_max_connections(input: &[u8]) -> (r: Result<u32, ConfigError>)
    ensures
        r is Ok <==> (trim_ws(input@).len() > 0 && all_digits(trim_ws(input@)) && 1 <= digits_val(
            trim_ws(input@),
        ) <= 0xFFFF_FFFF),
        r matches Ok(v) ==> v == digits_val(trim_ws(input@)),
{
    let (ts, te) = trim_ws_range(input);
    let value = crate::dns_name::copy_range(input, ts, te);
    proof {
        assert(value@ =~= trim_ws(input@));
    }
    let parsed = match parse_u64_bounded(value.as_slice(), 0xFFFF_FFFF) {
        Some(v) => v,
        None => {
            return Err(ConfigError::new("invalid max-connections value"));
        },
    };
    if parsed == 0 {
        return Err(ConfigError::new("max-connections must be at least 1"));
    }
    Ok(parsed as u32)
}

/// Reads a target address; a bare host takes the default upstream port.
pub fn parse_target_address(input: &[u8]) -> (r: Result<HostPort, ConfigError>)
    ensures
        r is Ok <==> spec_parse_host_port(input@, 5201) is Some,
        r matches Ok(hp) ==> (spec_parse_host_port(input@, 5201) matches Some(t) && hp.host@ == t.0
            && hp.port == t.1 && hp.family == t.2),
{
    parse_host_port(input, 5201, AddressKind::Target)
}

/// Reads a fallback address; a port is demanded.
pub fn parse_fallback_address(input: &[u8]) -> (r: Result<HostPort, ConfigError>)
    ensures
        r is Ok <==> (spec_parse_host_port(input@, 0) matches Some(t) && t.1 != 0),
        r matches Ok(hp) ==> (spec_parse_host_port(input@, 0) matches Some(t) && hp.host@ == t.0
            && hp.port == t.1 && hp.family == t.2 && hp.port != 0),
{
    let parsed = match parse_host_port(input, 0, AddressKind::Fallback) {
        Ok(hp) => hp,
        Err(e) => {
            return Err(e);
        },
    };
    if parsed.port == 0 {
        return Err(ConfigError::new("a fallback address must include a port"));
    }
    Ok(parsed)
}

/// What the server's domain option means: at most one occurrence, each of
/// its entries keeping substance once whitespace and dots go.
pub open spec fn spec_domains_option(
    opts: Seq<(Seq<u8>, Seq<u8>)>,
    i: int,
    acc: Option<Seq<Seq<u8>>>,
) -> Option<Option<Seq<Seq<u8>>>>
    decreases opts.len() - i,
{
    if i >= opts.len() {
        Some(acc)
    } else if opts[i].0 == domain_key() {
        if acc is Some {
            None
        } else {
            match spec_split_list(opts[i].1) {
                None => None,
                Some(entries) => {
                    let ds = entries.map_values(|e: Seq<u8>| trim_dots(trim_ws(e)));
                    if forall|k: int| 0 <= k < ds.len() ==> (#[trigger] ds[k]).len() > 0 {
                        spec_domains_option(opts, i + 1, Some(ds))
                    } else {
                        None
                    }
                },
            }
        }
    } else {
        spec_domains_option(opts, i + 1, acc)
    }
}

/// Reads the domain list for the server: one `domain` option, each entry
/// normalized; none at all yields an empty list.
pub fn parse_domains_from_options(options: &Vec<Sip003Option>) -> (r: Result<
    Vec<Vec<u8>>,
    ConfigError,
>)
    ensures
        r is Ok <==> spec_domains_option(opts_view(options@), 0, None) is Some,
        r matches Ok(v) ==> v.deep_view() == (match spec_domains_option(
            opts_view(options@),
            0,
            None,
        )->Some_0 {
            Option::Some(ds) => ds,
            Option::None => Seq::<Seq<u8>>::empty(),
        }),
{
    let ghost ov = opts_view(options@);
    let key: [u8; 6] = [100, 111, 109, 97, 105, 110];
    proof {
        assert(key@ =~= domain_key());
    }
    let mut domains: Option<Vec<Vec<u8>>> = None;
    let mut i: usize = 0;
    while i < options.len()
        invariant
            i <= options@.len(),
            ov == opts_view(options@),
            ov.len() == options@.len(),
            key@ == domain_key(),
            spec_domains_option(ov, 0, None) == spec_domains_option(
                ov,
                i as int,
                match &domains {
                    Option::Some(ds) => Some(ds.deep_view()),
                    Option::None => None,
                },
            ),
        decreases options@.len() - i,
    {
        let ghost acc0: Option<Seq<Seq<u8>>> = match &domains {
            Option::Some(ds) => Some(ds.deep_view()),
            Option::None => None,
        };
        proof {
            assert(ov[i as int].0 == options@[i as int].key@);
            assert(ov[i as int].1 == options@[i as int].value@);
        }
        if crate::bytestr::bytes_eq(options[i].key.as_slice(), key.as_slice()) {
            proof {
                assert(ov[i as int].0 == domain_key());
            }
            if domains.is_some() {
                proof {
                    assert(spec_domains_option(ov, i as int, acc0) is None);
                }
                return Err(ConfigError::new("the domain option must not be repeated"));
            }
            let entries = match split_list(options[i].value.as_slice()) {
                Ok(v) => v,
                Err(e) => {
                    proof {
                        assert(spec_split_list(ov[i as int].1) is None);
                        assert(spec_domains_option(ov, i as int, acc0) is None);
                    }
                    return Err(e);
                },
            };
            let ghost edv = entries.deep_view();
            let ghost ds = edv.map_values(|e: Seq<u8>| trim_dots(trim_ws(e)));
            proof {
                assert(edv == spec_split_list(ov[i as int].1)->Some_0);
            }
            let mut parsed: Vec<Vec<u8>> = Vec::new();
            let mut j: usize = 0;
            proof {
                assert(parsed.deep_view() =~~= ds.take(0));
            }
            while j < entries.len()
                invariant
                    j <= entries@.len(),
                    edv == entries.deep_view(),
                    edv.len() == entries@.len(),
                    ds == edv.map_values(|e: Seq<u8>| trim_dots(trim_ws(e))),
                    parsed.deep_view() =~~= ds.take(j as int),
                    forall|k: int| 0 <= k < j ==> (#[trigger] ds[k]).len() > 0,
                    i < ov.len(),
                    ov == opts_view(options@),
                    ov[i as int].0 == domain_key(),
                    spec_split_list(ov[i as int].1) == Some(edv),
                    acc0 is None,
                    spec_domains_option(ov, 0, None) == spec_domains_option(ov, i as int, acc0),
                decreases entries@.len() - j,
            {
                proof {
                    assert(edv[j as int] == entries@[j as int]@);
                }
                let normalized = match crate::net::normalize_domain(entries[j].as_slice()) {
                    Ok(v) => v,
                    Err(e) => {
                        proof {
                            assert(ds[j as int].len() == 0);
                            assert(!(forall|k: int|
                                0 <= k < ds.len() ==> (#[trigger] ds[k]).len() > 0));
                            assert(spec_domains_option(ov, i as int, None) is None);
                        }
                        return Err(e);
                    },
                };
                proof {
                    assert(normalized@ == ds[j as int]);
                }
                let ghost pdv0 = parsed.deep_view();
                parsed.push(normalized);
                proof {
                    assert(parsed.deep_view() =~~= pdv0.push(normalized@));
                    assert(pdv0.push(normalized@) =~~= ds.take(j + 1));
                }
                j = j + 1;
            }
            proof {
                assert(ds.take(ds.len() as int) =~~= ds);
                assert(forall|k: int| 0 <= k < ds.len() ==> (#[trigger] ds[k]).len() > 0);
                assert(spec_domains_option(ov, i as int, acc0) == spec_domains_option(
                    ov,
                    i + 1,
                    Some(ds),
                ));
            }
            domains = Some(parsed);
        } else {
            proof {
                assert(ov[i as int].0 != domain_key());
                assert(spec_domains_option(ov, i as int, acc0) == spec_domains_option(
                    ov,
                    i + 1,
                    acc0,
                ));
            }
        }
        i = i + 1;
    }
    proof {
        assert(spec_domains_option(
            ov,
            options@.len() as int,
            match &domains {
                Option::Some(ds) => Some(ds.deep_view()),
                Option::None => None,
            },
        ) == Some(
            match &domains {
                Option::Some(ds) => Some(ds.deep_view()),
                Option::None => None::<Seq<Seq<u8>>>,
            },
        ));
    }
    match domains {
        Some(ds) => Ok(ds),
        None => {
            let empty: Vec<Vec<u8>> = Vec::new();
            proof {
                assert(empty.deep_view() =~~= Seq::<Seq<u8>>::empty());
            }
            Ok(empty)
        },
    }
}

/// The payload bytes one query can carry under an apex of the given
/// length; apexes of 240 bytes and more leave no room.
pub fn compute_mtu(domain_len: usize) -> (r: Result<u32, ClientError>)
    ensures
        r is Ok <==> (domain_len < 240 && crate::dns_codec::spec_mtu(domain_len as int) >= 1),
        r matches Ok(v) ==> v == crate::dns_codec::spec_mtu(domain_len as int),
{
    if domain_len >= 240 {
        return Err(ClientError::new("the apex is too long for DNS transport"));
    }
    let mtu = (((240 - domain_len) * 5) / 8) as u64;
    if mtu == 0 {
        return Err(ClientError::new("the apex leaves no payload room"));
    }
    Ok(mtu as u32)
}

} // verus!
