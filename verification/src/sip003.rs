//! SIP003 plugin-option parsing: the `SS_PLUGIN_OPTIONS` escape grammar,
//! endpoint selection, and list splitting. Reading the environment is the
//! launcher's business; the values land here as plain byte strings.

use vstd::prelude::*;
use crate::bytestr::{lower_seq, to_lower_bytes};
use crate::net::{ConfigError, spec_parse_port, parse_port_value};
use crate::seed::{trim_ws, trim_ws_range};

verus! {

/// One `key=value` plugin option; the key is trimmed and lower-cased.
#[derive(Debug, Clone, PartialEq, Eq)]
pub struct Sip003Option {
    pub key: Vec<u8>,
    pub value: Vec<u8>,
}

/// The SIP003 environment, as handed over by the launcher.
#[derive(Debug, Clone)]
pub struct Sip003Env {
    pub local_host: Option<Vec<u8>>,
    pub local_port: Option<Vec<u8>>,
    pub remote_host: Option<Vec<u8>>,
    pub remote_port: Option<Vec<u8>>,
    pub plugin_options: Vec<Sip003Option>,
}

impl Sip003Env {
    /// Whether any SIP003 variable was set at all.
    pub fn is_present(&self) -> (r: bool)
        ensures
            r <==> (self.local_host is Some || self.local_port is Some || self.remote_host is Some
                || self.remote_port is Some || self.plugin_options@.len() > 0),
    {
        self.local_host.is_some() || self.local_port.is_some() || self.remote_host.is_some()
            || self.remote_port.is_some() || self.plugin_options.len() > 0
    }
}

/// A host and port taken from the environment.
#[derive(Debug, Clone)]
pub struct Sip003Endpoint {
    pub host: Vec<u8>,
    pub port: u16,
}

/// The text of the one key allowed to stand without a value.
pub open spec fn authoritative_key() -> Seq<u8> {
    seq![97u8, 117u8, 116u8, 104u8, 111u8, 114u8, 105u8, 116u8, 97u8, 116u8, 105u8, 118u8, 101u8]
}

/// Whether a key may stand without a value.
pub open spec fn spec_allows_empty_value_key(key: Seq<u8>) -> bool {
    lower_seq(trim_ws(key)) == authoritative_key()
}

/// The parser's running state, at spec level.
pub ghost struct SipState {
    pub options: Seq<(Seq<u8>, Seq<u8>)>,
    pub key: Seq<u8>,
    pub value: Seq<u8>,
    pub in_key: bool,
    pub escape: bool,
    pub saw_any: bool,
}

/// The parser's starting state.
pub open spec fn sip_init() -> SipState {
    SipState {
        options: Seq::empty(),
        key: Seq::empty(),
        value: Seq::empty(),
        in_key: true,
        escape: false,
        saw_any: false,
    }
}

/// Closing one option: its trimmed key must be non-empty; it joins the
/// list lower-cased, with the value as accumulated.
pub open spec fn spec_push_option(st: SipState) -> Option<SipState> {
    let tk = trim_ws(st.key);
    if tk.len() == 0 {
        None
    } else {
        Some(
            SipState {
                options: st.options.push((lower_seq(tk), st.value)),
                key: Seq::empty(),
                value: Seq::empty(),
                in_key: true,
                saw_any: false,
                ..st
            },
        )
    }
}

/// One character of the escape grammar.
pub open spec fn sip_step(st: SipState, ch: u8) -> Option<SipState> {
    if st.escape {
        if st.in_key {
            Some(SipState { key: st.key.push(ch), escape: false, saw_any: true, ..st })
        } else {
            Some(SipState { value: st.value.push(ch), escape: false, saw_any: true, ..st })
        }
    } else if ch == 92 {
        Some(SipState { escape: true, ..st })
    } else if ch == 59 {
        if st.in_key {
            if !st.saw_any && st.key.len() == 0 {
                Some(st)
            } else if spec_allows_empty_value_key(st.key) {
                spec_push_option(st)
            } else {
                None
            }
        } else {
            spec_push_option(st)
        }
    } else if ch == 61 {
        if st.in_key {
            Some(SipState { in_key: false, saw_any: true, ..st })
        } else {
            Some(SipState { value: st.value.push(61), saw_any: true, ..st })
        }
    } else {
        if st.in_key {
            Some(SipState { key: st.key.push(ch), saw_any: true, ..st })
        } else {
            Some(SipState { value: st.value.push(ch), saw_any: true, ..st })
        }
    }
}

/// The grammar run over a whole string.
pub open spec fn sip_run(st: SipState, s: Seq<u8>) -> Option<SipState>
    decreases s.len(),
{
    if s.len() == 0 {
        Some(st)
    } else {
        match sip_step(st, s[0]) {
            Some(st2) => sip_run(st2, s.drop_first()),
            None => None,
        }
    }
}

/// What a whole `SS_PLUGIN_OPTIONS` string means: the option list, or
/// nothing for a dangling escape, a missing `=`, or an empty key.
pub open spec fn spec_parse_plugin_options(s: Seq<u8>) -> Option<Seq<(Seq<u8>, Seq<u8>)>> {
    match sip_run(sip_init(), s) {
        None => None,
        Some(st) => {
            if st.escape {
                None
            } else if st.saw_any || st.key.len() > 0 || st.value.len() > 0 {
                if st.in_key {
                    if spec_allows_empty_value_key(st.key) {
                        match spec_push_option(st) {
                            Some(st2) => Some(st2.options),
                            None => None,
                        }
                    } else {
                        None
                    }
                } else {
                    match spec_push_option(st) {
                        Some(st2) => Some(st2.options),
                        None => None,
                    }
                }
            } else {
                Some(st.options)
            }
        },
    }
}

/// The spec view of an option list.
pub open spec fn opts_view(v: Seq<Sip003Option>) -> Seq<(Seq<u8>, Seq<u8>)> {
    v.map_values(|o: Sip003Option| (o.key@, o.value@))
}

/// Whether a key may stand without a value.
pub fn allows_empty_value_key(key: &[u8]) -> (r: bool)
    ensures
        r == spec_allows_empty_value_key(key@),
{
    let (start, end) = trim_ws_range(key);
    let trimmed = crate::dns_name::copy_range(key, start, end);
    proof {
        assert(trimmed@ =~= trim_ws(key@));
    }
    let lowered = to_lower_bytes(trimmed.as_slice());
    let expected: [u8; 13] = [97, 117, 116, 104, 111, 114, 105, 116, 97, 116, 105, 118, 101];
    proof {
        assert(expected@ =~= authoritative_key());
    }
    crate::bytestr::bytes_eq(lowered.as_slice(), expected.as_slice())
}

/// Closes the pending option onto the list; the caller clears the key and
/// value buffers afterwards.
fn push_option(options: &mut Vec<Sip003Option>, key: &[u8], value: &[u8]) -> (r: Result<
    (),
    ConfigError,
>)
    ensures
        r is Ok <==> trim_ws(key@).len() > 0,
        r is Ok ==> opts_view(final(options)@) == opts_view(old(options)@).push(
            (lower_seq(trim_ws(key@)), value@),
        ),
        r is Err ==> final(options)@ == old(options)@,
{
    let (start, end) = trim_ws_range(key);
    if end - start == 0 {
        proof {
            assert(trim_ws(key@).len() == 0);
        }
        return Err(ConfigError::new("invalid plugin option: empty key"));
    }
    let trimmed = crate::dns_name::copy_range(key, start, end);
    proof {
        assert(trimmed@ =~= trim_ws(key@));
    }
    let lowered = to_lower_bytes(trimmed.as_slice());
    let val = crate::bytestr::to_vec_bytes(value);
    let ghost opt = Sip003Option { key: lowered, value: val };
    options.push(Sip003Option { key: lowered, value: val });
    proof {
        assert(opts_view(options@) =~= opts_view(old(options)@).push(
            (lower_seq(trim_ws(key@)), value@),
        ));
    }
    Ok(())
}

/// Reads an `SS_PLUGIN_OPTIONS` string into its option list.
///
/// Backslash escapes the next character; semicolons separate options; the
/// first unescaped `=` of an option splits key from value. A dangling
/// escape, an option without `=` (unless its key may stand alone) and an
/// empty key are refused.
pub fn parse_plugin_options(input: &[u8]) -> (r: Result<Vec<Sip003Option>, ConfigError>)
    ensures
        r is Ok <==> spec_parse_plugin_options(input@) is Some,
        r matches Ok(v) ==> opts_view(v@) == spec_parse_plugin_options(input@)->Some_0,
{
    let mut options: Vec<Sip003Option> = Vec::new();
    let mut key: Vec<u8> = Vec::new();
    let mut value: Vec<u8> = Vec::new();
    let mut in_key: bool = true;
    let mut escape: bool = false;
    let mut saw_any: bool = false;
    let mut i: usize = 0;
    proof {
        assert(input@.take(0) =~= Seq::<u8>::empty());
        assert(sip_run(sip_init(), input@.take(0)) == Some(sip_init()));
        assert(opts_view(options@) =~= Seq::<(Seq<u8>, Seq<u8>)>::empty());
    }
    while i < input.len()
        invariant
            i <= input@.len(),
            sip_run(sip_init(), input@.take(i as int)) == Some(
                SipState {
                    options: opts_view(options@),
                    key: key@,
                    value: value@,
                    in_key: in_key,
                    escape: escape,
                    saw_any: saw_any,
                },
            ),
        decreases input@.len() - i,
    {
        let ghost st = SipState {
            options: opts_view(options@),
            key: key@,
            value: value@,
            in_key: in_key,
            escape: escape,
            saw_any: saw_any,
        };
        let ch = input[i];
        proof {
            assert(input@.take(i + 1).drop_last() =~= input@.take(i as int));
            assert(input@.take(i + 1).last() == input@[i as int]);
            lemma_sip_run_snoc(sip_init(), input@.take(i as int), input@[i as int]);
        }
        if escape {
            if in_key {
                key.push(ch);
            } else {
                value.push(ch);
            }
            escape = false;
            saw_any = true;
        } else if ch == 92 {
            escape = true;
        } else if ch == 59 {
            if in_key {
                if !saw_any && key.len() == 0 {
                    // A leading or doubled separator carries nothing.
                } else if allows_empty_value_key(key.as_slice()) {
                    match push_option(&mut options, key.as_slice(), value.as_slice()) {
                        Ok(()) => {},
                        Err(e) => {
                            proof {
                                assert(sip_step(st, input@[i as int]) is None);
                                lemma_sip_run_none(sip_init(), input@, i as int);
                            }
                            return Err(e);
                        },
                    }
                    key.clear();
                    value.clear();
                    in_key = true;
                    saw_any = false;
                } else {
                    proof {
                        assert(sip_step(st, input@[i as int]) is None);
                        lemma_sip_run_none(sip_init(), input@, i as int);
                    }
                    return Err(
                        ConfigError::new("invalid plugin option entry: missing value separator"),
                    );
                }
            } else {
                match push_option(&mut options, key.as_slice(), value.as_slice()) {
                    Ok(()) => {},
                    Err(e) => {
                        proof {
                            assert(sip_step(st, input@[i as int]) is None);
                            lemma_sip_run_none(sip_init(), input@, i as int);
                        }
                        return Err(e);
                    },
                }
                key.clear();
                value.clear();
                in_key = true;
                saw_any = false;
            }
        } else if ch == 61 {
            if in_key {
                in_key = false;
                saw_any = true;
            } else {
                value.push(61);
                saw_any = true;
            }
        } else {
            if in_key {
                key.push(ch);
            } else {
                value.push(ch);
            }
            saw_any = true;
        }
        proof {
            let st_new = SipState {
                options: opts_view(options@),
                key: key@,
                value: value@,
                in_key: in_key,
                escape: escape,
                saw_any: saw_any,
            };
            assert(sip_step(st, input@[i as int]) == Some(st_new));
            assert(input@.take(i as int).push(input@[i as int]) =~= input@.take(i + 1));
        }
        i = i + 1;
    }
    proof {
        assert(input@.take(input@.len() as int) =~= input@);
    }
    let ghost st = SipState {
        options: opts_view(options@),
        key: key@,
        value: value@,
        in_key: in_key,
        escape: escape,
        saw_any: saw_any,
    };
    if escape {
        return Err(ConfigError::new("invalid plugin option entry: dangling escape"));
    }
    if saw_any || key.len() > 0 || value.len() > 0 {
        if in_key {
            if allows_empty_value_key(key.as_slice()) {
                match push_option(&mut options, key.as_slice(), value.as_slice()) {
                    Ok(()) => {},
                    Err(e) => {
                        return Err(e);
                    },
                }
            } else {
                return Err(
                    ConfigError::new("invalid plugin option entry: missing value separator"),
                );
            }
        } else {
            match push_option(&mut options, key.as_slice(), value.as_slice()) {
                Ok(()) => {},
                Err(e) => {
                    return Err(e);
                },
            }
        }
    }
    Ok(options)
}

/// Running one more character is one more step.
proof fn lemma_sip_run_snoc(st: SipState, s: Seq<u8>, ch: u8)
    ensures
        sip_run(st, s.push(ch)) == (match sip_run(st, s) {
            Some(st2) => sip_step(st2, ch),
            None => None,
        }),
    decreases s.len(),
{
    if s.len() == 0 {
        assert(s.push(ch).drop_first() =~= Seq::<u8>::empty());
        assert(s.push(ch)[0] == ch);
        assert(sip_run(st, s) == Some(st));
        match sip_step(st, ch) {
            Some(st2) => {
                assert(sip_run(st2, Seq::<u8>::empty()) == Some(st2));
                assert(sip_run(st, s.push(ch)) == Some(st2));
            },
            None => {
                assert(sip_run(st, s.push(ch)) is None);
            },
        }
    } else {
        assert(s.push(ch)[0] == s[0]);
        match sip_step(st, s[0]) {
            Some(st2) => {
                lemma_sip_run_snoc(st2, s.drop_first(), ch);
                assert(s.push(ch).drop_first() =~= s.drop_first().push(ch));
                assert(sip_run(st, s.push(ch)) == sip_run(st2, s.drop_first().push(ch)));
                assert(sip_run(st, s) == sip_run(st2, s.drop_first()));
            },
            None => {
                assert(s.push(ch).drop_first() =~= s.drop_first().push(ch));
                assert(sip_run(st, s.push(ch)) is None);
                assert(sip_run(st, s) is None);
            },
        }
    }
}

/// A refused step makes the whole run refuse.
proof fn lemma_sip_run_none(st0: SipState, s: Seq<u8>, i: int)
    requires
        0 <= i < s.len(),
        sip_run(st0, s.take(i)) matches Some(st) && sip_step(st, s[i]) is None,
    ensures
        sip_run(st0, s) is None,
    decreases s.len() - i,
{
    lemma_sip_run_snoc(st0, s.take(i), s[i]);
    assert(s.take(i).push(s[i]) =~= s.take(i + 1));
    assert(sip_run(st0, s.take(i + 1)) is None);
    lemma_sip_run_none_prefix(st0, s, i + 1);
}

/// A refused prefix makes the whole run refuse.
proof fn lemma_sip_run_none_prefix(st0: SipState, s: Seq<u8>, i: int)
    requires
        0 <= i <= s.len(),
        sip_run(st0, s.take(i)) is None,
    ensures
        sip_run(st0, s) is None,
    decreases s.len() - i,
{
    if i == s.len() {
        assert(s.take(i) =~= s);
    } else {
        lemma_sip_run_snoc(st0, s.take(i), s[i]);
        assert(s.take(i).push(s[i]) =~= s.take(i + 1));
        lemma_sip_run_none_prefix(st0, s, i + 1);
    }
}

/// What reading an optional endpoint pair means: both set and well-formed,
/// both missing, or a refusal.
pub open spec fn spec_parse_endpoint(host: Option<Seq<u8>>, port: Option<Seq<u8>>) -> Option<
    Option<(Seq<u8>, u16)>,
> {
    match (host, port) {
        (Option::None, Option::None) => Some(None),
        (Option::Some(h), Option::Some(p)) => {
            let th = trim_ws(h);
            if th.len() == 0 {
                None
            } else {
                match spec_parse_port(trim_ws(p)) {
                    Some(pv) => Some(Some((th, pv))),
                    None => None,
                }
            }
        },
        _ => None,
    }
}

/// Reads a host and port pair from the environment: both or neither must
/// be set, the host non-empty and the port a number from one to 65535.
pub fn parse_endpoint(
    host: &Option<Vec<u8>>,
    port: &Option<Vec<u8>>,
    label: &str,
) -> (r: Result<Option<Sip003Endpoint>, ConfigError>)
    ensures
        r is Ok <==> spec_parse_endpoint(
            match host {
                Option::Some(h) => Some(h@),
                Option::None => None,
            },
            match port {
                Option::Some(p) => Some(p@),
                Option::None => None,
            },
        ) is Some,
        r matches Ok(ep) ==> ({
            let sp = spec_parse_endpoint(
                match host {
                    Option::Some(h) => Some(h@),
                    Option::None => None,
                },
                match port {
                    Option::Some(p) => Some(p@),
                    Option::None => None,
                },
            )->Some_0;
            match ep {
                Option::Some(e) => sp is Some && e.host@ == sp->Some_0.0 && e.port == sp->Some_0.1,
                Option::None => sp is None,
            }
        }),
{
    match (host, port) {
        (Option::None, Option::None) => Ok(None),
        (Option::Some(h), Option::Some(p)) => {
            let (hs, he) = trim_ws_range(h.as_slice());
            if he - hs == 0 {
                return Err(ConfigError::new("endpoint host must not be empty"));
            }
            let th = crate::dns_name::copy_range(h.as_slice(), hs, he);
            proof {
                assert(th@ =~= trim_ws(h@));
            }
            let (ps, pe) = trim_ws_range(p.as_slice());
            let tp = crate::dns_name::copy_range(p.as_slice(), ps, pe);
            proof {
                assert(tp@ =~= trim_ws(p@));
            }
            let pv = match parse_port_value(tp.as_slice()) {
                Some(v) => v,
                None => {
                    return Err(ConfigError::new("invalid endpoint port value"));
                },
            };
            Ok(Some(Sip003Endpoint { host: th, port: pv }))
        },
        _ => Err(ConfigError::new("endpoint host and port must both be set")),
    }
}

/// Picks the listen endpoint: command-line values when either was given on
/// the command line, the environment pair when set, the defaults otherwise.
pub fn select_host_port(
    cli_host: &[u8],
    cli_port: u16,
    cli_host_provided: bool,
    cli_port_provided: bool,
    env_host: &Option<Vec<u8>>,
    env_port: &Option<Vec<u8>>,
    label: &str,
) -> (r: Result<(Vec<u8>, u16), ConfigError>)
    ensures
        (cli_host_provided || cli_port_provided) ==> (r matches Ok(t) && t.0@ == cli_host@ && t.1
            == cli_port),
        !(cli_host_provided || cli_port_provided) ==> ({
            let sp = spec_parse_endpoint(
                match env_host {
                    Option::Some(h) => Some(h@),
                    Option::None => None,
                },
                match env_port {
                    Option::Some(p) => Some(p@),
                    Option::None => None,
                },
            );
            (r is Ok <==> sp is Some) && (r matches Ok(t) ==> (match sp->Some_0 {
                Option::Some(e) => t.0@ == e.0 && t.1 == e.1,
                Option::None => t.0@ == cli_host@ && t.1 == cli_port,
            }))
        }),
{
    if cli_host_provided || cli_port_provided {
        return Ok((crate::bytestr::to_vec_bytes(cli_host), cli_port));
    }
    match parse_endpoint(env_host, env_port, label) {
        Ok(Option::Some(endpoint)) => Ok((endpoint.host, endpoint.port)),
        Ok(Option::None) => Ok((crate::bytestr::to_vec_bytes(cli_host), cli_port)),
        Err(e) => Err(e),
    }
}

/// Comma-split segments of a list value.
pub open spec fn split_commas(s: Seq<u8>) -> Seq<Seq<u8>>
    decreases s.len(),
{
    let c = crate::bytestr::find_byte(s, 44);
    if c < 0 || c >= s.len() {
        seq![s]
    } else {
        seq![s.take(c)] + split_commas(s.skip(c + 1))
    }
}

/// What a list value means: each comma-separated entry trimmed, none of
/// them left empty.
pub open spec fn spec_split_list(s: Seq<u8>) -> Option<Seq<Seq<u8>>> {
    let entries = split_commas(s).map_values(|e: Seq<u8>| trim_ws(e));
    if forall|i: int| 0 <= i < entries.len() ==> (#[trigger] entries[i]).len() > 0 {
        Some(entries)
    } else {
        None
    }
}

/// Splits a comma-separated list, trimming each entry; an empty entry
/// refuses the whole list.
pub fn split_list(value: &[u8]) -> (r: Result<Vec<Vec<u8>>, ConfigError>)
    ensures
        r is Ok <==> spec_split_list(value@) is Some,
        r matches Ok(v) ==> v.deep_view() == spec_split_list(value@)->Some_0,
{
    let ghost whole = split_commas(value@).map_values(|e: Seq<u8>| trim_ws(e));
    let mut entries: Vec<Vec<u8>> = Vec::new();
    let mut pos: usize = 0;
    let ghost mut k: int = 0;
    proof {
        assert(value@.subrange(0, value@.len() as int) =~= value@);
        assert(whole.take(0) =~= Seq::<Seq<u8>>::empty());
        assert(entries.deep_view() =~~= whole.take(0));
    }
    loop
        invariant
            pos <= value@.len(),
            0 <= k <= whole.len(),
            whole == split_commas(value@).map_values(|e: Seq<u8>| trim_ws(e)),
            entries.deep_view() =~~= whole.take(k),
            split_commas(value@.subrange(pos as int, value@.len() as int)).map_values(
                |e: Seq<u8>| trim_ws(e),
            ) =~~= whole.skip(k),
            forall|j: int| 0 <= j < k ==> (#[trigger] whole[j]).len() > 0,
            k < whole.len(),
            pos == 0 <==> k == 0,
        decreases value@.len() - pos,
    {
        let ghost cur = value@.subrange(pos as int, value@.len() as int);
        let mut j: usize = pos;
        while j < value.len() && value[j] != 44
            invariant
                pos <= j <= value@.len(),
                forall|q: int| pos <= q < j ==> value@[q] != 44,
            decreases value@.len() - j,
        {
            j = j + 1;
        }
        proof {
            crate::bytestr::lemma_find_byte_char(cur, 44);
            if j < value@.len() {
                assert(cur[j - pos] == value@[j as int]);
                assert(crate::bytestr::find_byte(cur, 44) == j - pos) by {
                    let fd = crate::bytestr::find_byte(cur, 44);
                    if fd < 0 {
                        assert(cur[j - pos] != 44);
                    } else if fd < j - pos {
                        assert(value@[pos + fd] == cur[fd]);
                        assert(cur[fd] != 44);
                    } else if fd > j - pos {
                        assert(cur[j - pos] != 44);
                    }
                }
                assert(split_commas(cur) == seq![cur.take(j - pos)] + split_commas(
                    cur.skip(j - pos + 1),
                ));
            } else {
                assert(crate::bytestr::find_byte(cur, 44) < 0 || crate::bytestr::find_byte(cur, 44)
                    >= cur.len()) by {
                    let fd = crate::bytestr::find_byte(cur, 44);
                    if 0 <= fd < cur.len() {
                        assert(cur[fd] == value@[pos + fd]);
                        assert(cur[fd] != 44);
                    }
                }
                assert(split_commas(cur) == seq![cur]);
            }
            assert(whole.skip(k)[0] == whole[k]);
            if j < value@.len() {
                assert(whole[k] == trim_ws(cur.take(j - pos)));
                assert(cur.take(j - pos) =~= value@.subrange(pos as int, j as int));
            } else {
                assert(whole[k] == trim_ws(cur));
            }
        }
        let seg = crate::dns_name::copy_range(value, pos, j);
        let (ts, te) = trim_ws_range(seg.as_slice());
        if te - ts == 0 {
            proof {
                assert(seg@ =~= if j < value@.len() {
                    cur.take(j - pos)
                } else {
                    cur
                });
                assert(whole[k].len() == 0);
                assert(spec_split_list(value@) is None);
            }
            return Err(ConfigError::new("invalid list entry: empty value"));
        }
        let entry = crate::dns_name::copy_range(seg.as_slice(), ts, te);
        let ghost ev = entry;
        entries.push(entry);
        proof {
            assert(seg@ =~= if j < value@.len() {
                cur.take(j - pos)
            } else {
                cur
            });
            assert(ev@ == trim_ws(seg@));
            assert(entries.deep_view() =~~= whole.take(k).push(whole[k]));
            assert(whole.take(k).push(whole[k]) =~~= whole.take(k + 1));
            k = k + 1int;
        }
        if j >= value.len() {
            proof {
                assert(whole.skip(k - 1).len() == 1) by {
                    assert(split_commas(cur).len() == 1);
                }
                assert(k == whole.len());
                assert(whole.take(k) =~~= whole);
                assert(forall|q: int| 0 <= q < whole.len() ==> (#[trigger] whole[q]).len() > 0);
                assert(spec_split_list(value@) == Some(whole));
            }
            return Ok(entries);
        }
        proof {
            assert(whole.skip(k) =~~= whole.skip(k - 1).drop_first());
            assert(split_commas(cur).drop_first() =~~= split_commas(cur.skip(j - pos + 1)));
            assert(cur.skip(j - pos + 1) =~= value@.subrange(j + 1, value@.len() as int));
            assert(split_commas(value@.subrange(j + 1, value@.len() as int)).map_values(
                |e: Seq<u8>| trim_ws(e),
            ) =~~= whole.skip(k));
            assert(whole.skip(k).len() >= 1) by {
                assert(split_commas(value@.subrange(j + 1, value@.len() as int)).len() >= 1);
            }
        }
        pos = j + 1;
    }
}

/// The value of the last option with the given key, trimmed.
pub open spec fn spec_last_option(opts: Seq<(Seq<u8>, Seq<u8>)>, key: Seq<u8>) -> Option<Seq<u8>>
    decreases opts.len(),
{
    if opts.len() == 0 {
        None
    } else if opts.last().0 == key {
        Some(trim_ws(opts.last().1))
    } else {
        spec_last_option(opts.drop_last(), key)
    }
}

/// Finds the last option with the given key; its value comes back trimmed.
pub fn last_option_value(options: &Vec<Sip003Option>, key: &[u8]) -> (r: Option<Vec<u8>>)
    ensures
        r matches Some(v) ==> spec_last_option(opts_view(options@), key@) == Some(v@),
        r is None ==> spec_last_option(opts_view(options@), key@) is None,
{
    let mut i: usize = options.len();
    proof {
        assert(opts_view(options@).take(options@.len() as int) =~~= opts_view(options@));
    }
    while i > 0
        invariant
            i <= options@.len(),
            spec_last_option(opts_view(options@), key@) == spec_last_option(
                opts_view(options@).take(i as int),
                key@,
            ),
        decreases i,
    {
        i = i - 1;
        proof {
            assert(opts_view(options@).take(i + 1).last() == opts_view(options@)[i as int]);
            assert(opts_view(options@).take(i + 1).drop_last() =~~= opts_view(options@).take(
                i as int,
            ));
        }
        if crate::bytestr::bytes_eq(options[i].key.as_slice(), key) {
            proof {
                assert(opts_view(options@)[i as int].0 == options@[i as int].key@);
            }
            let (ts, te) = trim_ws_range(options[i].value.as_slice());
            let out = crate::dns_name::copy_range(options[i].value.as_slice(), ts, te);
            proof {
                assert(out@ =~= trim_ws(options@[i as int].value@));
                assert(opts_view(options@)[i as int].1 == options@[i as int].value@);
            }
            return Some(out);
        }
        proof {
            assert(opts_view(options@)[i as int].0 == options@[i as int].key@);
        }
    }
    proof {
        assert(opts_view(options@).take(0) =~~= Seq::<(Seq<u8>, Seq<u8>)>::empty());
    }
    None
}

} // verus!
