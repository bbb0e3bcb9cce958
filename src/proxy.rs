use vstd::prelude::*;
use vstd::string::*;
use crate::config::ProxySettings;
use crate::db::EnvState;
use crate::text::{trim_start, trim_start_str, join_sep, join_with,
    find_from, find_str, first_is_char, rfind_below, rfind_str, split_tokens, starts_ci,
    starts_with_ci_at, tokens, trim, trim_char, trim_end_char, trim_end_matches_char,
    trim_matches_char, trim_str,
};

verus! {

/// Host and port of `input` read as an absolute URL: the host, and the
/// explicit port or else the scheme's default one.
pub uninterp spec fn url_authority(input: Seq<char>) -> Option<(Seq<char>, u16)>;

/// Relies on `reqwest::Url::parse` (the `url` crate), then on the parsed URL
/// `Url::host_str` and `Url::port_or_known_default`: `None` where the text
/// does not parse or the URL lacks a host or a port.
#[verifier::external_body]
fn url_host_and_port(input: &str) -> (r: Option<(String, u16)>)
    ensures
        match r {
            Some((h, p)) => url_authority(input@) == Some((h@, p)),
            None => url_authority(input@) is None,
        },
{
    let url = reqwest::Url::parse(input).ok()?;
    let host = url.host_str()?.to_string();
    let port = url.port_or_known_default()?;
    Some((host, port))
}

pub open spec fn digit(d: int) -> char {
    if d == 0 {
        '0'
    } else if d == 1 {
        '1'
    } else if d == 2 {
        '2'
    } else if d == 3 {
        '3'
    } else if d == 4 {
        '4'
    } else if d == 5 {
        '5'
    } else if d == 6 {
        '6'
    } else if d == 7 {
        '7'
    } else if d == 8 {
        '8'
    } else {
        '9'
    }
}

/// The decimal digits of `n`.
pub open spec fn decimal(n: nat) -> Seq<char>
    decreases n,
{
    if n < 10 {
        seq![digit(n as int)]
    } else {
        decimal(n / 10) + seq![digit((n % 10) as int)]
    }
}

fn digit_str(d: u64) -> (r: &'static str)
    requires
        d < 10,
    ensures
        r@ == seq![digit(d as int)],
{
    if d == 0 {
        proof { reveal_strlit("0"); }
        "0"
    } else if d == 1 {
        proof { reveal_strlit("1"); }
        "1"
    } else if d == 2 {
        proof { reveal_strlit("2"); }
        "2"
    } else if d == 3 {
        proof { reveal_strlit("3"); }
        "3"
    } else if d == 4 {
        proof { reveal_strlit("4"); }
        "4"
    } else if d == 5 {
        proof { reveal_strlit("5"); }
        "5"
    } else if d == 6 {
        proof { reveal_strlit("6"); }
        "6"
    } else if d == 7 {
        proof { reveal_strlit("7"); }
        "7"
    } else if d == 8 {
        proof { reveal_strlit("8"); }
        "8"
    } else {
        proof { reveal_strlit("9"); }
        "9"
    }
}

/// Appends the decimal digits of `n` to `s`.
pub fn push_decimal(n: u64, s: &mut String)
    ensures
        final(s)@ == old(s)@ + decimal(n as nat),
    decreases n,
{
    if n >= 10 {
        push_decimal(n / 10, s);
    }
    s.append(digit_str(n % 10));
    assert(final(s)@ =~= old(s)@ + decimal(n as nat));
}

/// `host:port`.
pub open spec fn host_port(host: Seq<char>, port: Seq<char>) -> Seq<char> {
    host + seq![':'] + port
}

/// The `host:port` of `input` read as an absolute URL.
pub open spec fn url_host_port(input: Seq<char>) -> Option<Seq<char>> {
    match url_authority(input) {
        Some((h, p)) => Some(host_port(h, decimal(p as nat))),
        None => None,
    }
}

/// `host:port` from the host and port of a parsed URL.
pub fn host_port_from_authority(a: Option<(String, u16)>) -> (r: Option<String>)
    ensures
        match a {
            Some((h, p)) => r.deep_view() == Some(host_port(h@, decimal(p as nat))),
            None => r is None,
        },
{
    match a {
        Some((h, p)) => {
            let mut s = h;
            s.append(":");
            proof { reveal_strlit(":"); }
            push_decimal(p as u64, &mut s);
            Some(s)
        },
        None => None,
    }
}

fn url_host_port_of(input: &str) -> (r: Option<String>)
    ensures
        r.deep_view() == url_host_port(input@),
{
    host_port_from_authority(url_host_and_port(input))
}

/// `t` without a leading directive word (`PROXY`, `HTTPS`, `HTTP`, `SOCKS4`,
/// `SOCKS5` or `SOCKS`, in any case, followed by a space), trimmed.
pub open spec fn strip_directive(t: Seq<char>) -> Seq<char> {
    if starts_ci(t, "proxy "@) || starts_ci(t, "https "@) || starts_ci(t, "socks "@) {
        trim(t.skip(6))
    } else if starts_ci(t, "http "@) {
        trim(t.skip(5))
    } else if starts_ci(t, "socks4 "@) || starts_ci(t, "socks5 "@) {
        trim(t.skip(7))
    } else {
        t
    }
}

/// The proxy token of a trimmed specification such as `PROXY host:port;`: the
/// first word after a directive, without trailing `;`, surrounding quotes or
/// trailing `/`.
pub open spec fn candidate(t: Seq<char>) -> Seq<char> {
    let c1 = strip_directive(t);
    let ws = tokens(c1);
    let c2 = if ws.len() > 0 {
        trim(ws[0])
    } else {
        c1
    };
    let c3 = trim(trim_end_char(c2, ';'));
    trim_end_char(trim_char(c3, '"'), '/')
}

/// Host and port split at the last `:`; a bracketed IPv6 host keeps its
/// brackets, and `[::1]: 8080` is read as `[::1]` and `8080`.
pub open spec fn split_host_port_spec(input: Seq<char>) -> Option<(Seq<char>, Seq<char>)> {
    let s = trim(input);
    if first_is_char(s, '[') && find_from(s, "]: "@, 0) is Some {
        let i = find_from(s, "]: "@, 0)->Some_0;
        Some((trim(s.take(i + 1)), trim(s.skip(i + 2))))
    } else if first_is_char(s, '[') && rfind_below(s, "]:"@, s.len() as int + 1) is Some {
        let i = rfind_below(s, "]:"@, s.len() as int + 1)->Some_0;
        Some((trim(s.take(i + 1)), trim(s.skip(i + 2))))
    } else {
        match rfind_below(s, ":"@, s.len() as int + 1) {
            Some(k) => {
                let h = trim(s.take(k));
                let p = trim(s.skip(k + 1));
                if h.len() > 0 && p.len() > 0 {
                    Some((h, p))
                } else {
                    None
                }
            },
            None => None,
        }
    }
}

/// A bracketed IPv6 host written `[::1]: 8080` with its stray space after
/// the `]:` removed; any other text as it is.
pub open spec fn close_bracket_gap(t: Seq<char>) -> Seq<char> {
    if first_is_char(t, '[') && find_from(t, "]: "@, 0) is Some {
        let i = find_from(t, "]: "@, 0)->Some_0;
        t.take(i + 2) + trim_start(t.skip(i + 2))
    } else {
        t
    }
}

/// The canonical `host:port` of a proxy specification: the URL reading of
/// the trimmed text, else of it with `http://` in front, else of its proxy
/// token (taken after closing a bracketed host's stray gap) with `http://`
/// in front, else that token split at its last `:`.
pub open spec fn extract_host_port(value: Seq<char>) -> Option<Seq<char>> {
    let t = trim(value);
    if t.len() == 0 {
        None
    } else if url_host_port(t) is Some {
        url_host_port(t)
    } else if url_host_port("http://"@ + t) is Some {
        url_host_port("http://"@ + t)
    } else {
        let c = candidate(close_bracket_gap(t));
        if c.len() == 0 {
            None
        } else if url_host_port("http://"@ + c) is Some {
            url_host_port("http://"@ + c)
        } else {
            match split_host_port_spec(c) {
                Some((h, p)) => Some(host_port(h, p)),
                None => None,
            }
        }
    }
}

fn strip_directive_str(t: &str) -> (r: String)
    ensures
        r@ == strip_directive(t@),
{
    assert(t@.skip(0) =~= t@);
    let n = t.unicode_len();
    if starts_with_ci_at(t, 0, "proxy ") || starts_with_ci_at(t, 0, "https ")
        || starts_with_ci_at(t, 0, "socks ") {
        proof { reveal_strlit("proxy "); reveal_strlit("https "); reveal_strlit("socks "); }
        trim_str(t.substring_char(6, n))
    } else if starts_with_ci_at(t, 0, "http ") {
        proof { reveal_strlit("http "); }
        trim_str(t.substring_char(5, n))
    } else if starts_with_ci_at(t, 0, "socks4 ") || starts_with_ci_at(t, 0, "socks5 ") {
        proof { reveal_strlit("socks4 "); reveal_strlit("socks5 "); }
        trim_str(t.substring_char(7, n))
    } else {
        String::from_str(t)
    }
}

/// The proxy token of a trimmed specification.
pub fn proxy_candidate(t: &str) -> (r: String)
    ensures
        r@ == candidate(t@),
{
    let c1 = strip_directive_str(t);
    let ws = split_tokens(c1.as_str());
    let c2 = if ws.len() > 0 {
        trim_str(ws[0].as_str())
    } else {
        c1
    };
    let c3 = trim_end_matches_char(c2.as_str(), ';');
    let c3 = trim_str(c3.as_str());
    let c4 = trim_matches_char(c3.as_str(), '"');
    trim_end_matches_char(c4.as_str(), '/')
}

/// Splits `host:port` at the last `:`, with the bracketed IPv6 forms.
pub fn split_host_port(input: &str) -> (r: Option<(String, String)>)
    ensures
        match (r, split_host_port_spec(input@)) {
            (Some((h, p)), Some((sh, sp))) => h@ == sh && p@ == sp,
            (None, None) => true,
            _ => false,
        },
{
    let s = trim_str(input);
    let s = s.as_str();
    let n = s.unicode_len();
    let bracket = n > 0 && s.get_char(0) == '[';
    if bracket {
        match find_str(s, "]: ") {
            Some(i) => {
                proof { reveal_strlit("]: "); }
                return Some(
                    (trim_str(s.substring_char(0, i + 1)), trim_str(s.substring_char(i + 2, n))),
                );
            },
            None => {},
        }
        match rfind_str(s, "]:") {
            Some(i) => {
                proof { reveal_strlit("]:"); }
                return Some(
                    (trim_str(s.substring_char(0, i + 1)), trim_str(s.substring_char(i + 2, n))),
                );
            },
            None => {},
        }
    }
    match rfind_str(s, ":") {
        Some(k) => {
            proof { reveal_strlit(":"); }
            let h = trim_str(s.substring_char(0, k));
            let p = trim_str(s.substring_char(k + 1, n));
            if h.unicode_len() > 0 && p.unicode_len() > 0 {
                Some((h, p))
            } else {
                None
            }
        },
        None => None,
    }
}

/// `t` with a bracketed host's stray gap closed.
pub fn close_gap(t: &str) -> (r: String)
    ensures
        r@ == close_bracket_gap(t@),
{
    let n = t.unicode_len();
    if n > 0 && t.get_char(0) == '[' {
        match find_str(t, "]: ") {
            Some(i) => {
                proof {
                    reveal_strlit("]: ");
                }
                let mut out = String::from_str(t.substring_char(0, i + 2));
                let rest = trim_start_str(t.substring_char(i + 2, n));
                out.append(rest.as_str());
                return out;
            },
            None => {},
        }
    }
    String::from_str(t)
}

fn prefixed_http(t: &str) -> (r: String)
    ensures
        r@ == "http://"@ + t@,
{
    let mut s = String::from_str("http://");
    s.append(t);
    s
}

/// The canonical `host:port` of a proxy specification, or `None` where no
/// reading gives one.
pub fn extract_proxy_host(value: &str) -> (r: Option<String>)
    ensures
        r.deep_view() == extract_host_port(value@),
{
    let t = trim_str(value);
    if t.unicode_len() == 0 {
        return None;
    }
    let direct = url_host_port_of(t.as_str());
    if direct.is_some() {
        return direct;
    }
    let with_scheme = url_host_port_of(prefixed_http(t.as_str()).as_str());
    if with_scheme.is_some() {
        return with_scheme;
    }
    let closed = close_gap(t.as_str());
    let c = proxy_candidate(closed.as_str());
    if c.unicode_len() == 0 {
        return None;
    }
    let from_token = url_host_port_of(prefixed_http(c.as_str()).as_str());
    if from_token.is_some() {
        return from_token;
    }
    match split_host_port(c.as_str()) {
        Some((h, p)) => {
            let mut s = h;
            s.append(":");
            proof { reveal_strlit(":"); }
            s.append(p.as_str());
            Some(s)
        },
        None => None,
    }
}

/// A proxy specification and the `host:port` read from it.
#[derive(Debug)]
pub struct ResolvedProxy {
    pub proxy_url: String,
    pub proxy_host: String,
}

/// Why auto-discovery gave no candidate.
#[derive(Debug)]
pub enum DiscoveryError {
    /// Discovery is switched off in the configuration.
    Disabled,
    /// The discovery document could not be fetched; holds the reason.
    Unavailable(String),
    /// The document names no proxy.
    NoCandidates,
}

/// Why no proxy could be determined.
#[derive(Debug)]
pub enum ResolutionError {
    /// The specification yields no `host:port`; holds it.
    Unparseable(String),
    /// Discovery gave nothing and no fallback proxy is configured.
    Discovery(DiscoveryError),
}

pub enum DiscoveryFault {
    Disabled,
    Unavailable(Seq<char>),
    NoCandidates,
}

pub enum ResolutionFault {
    Unparseable(Seq<char>),
    Discovery(DiscoveryFault),
}

impl View for DiscoveryError {
    type V = DiscoveryFault;

    open spec fn view(&self) -> DiscoveryFault {
        match self {
            DiscoveryError::Disabled => DiscoveryFault::Disabled,
            DiscoveryError::Unavailable(m) => DiscoveryFault::Unavailable(m@),
            DiscoveryError::NoCandidates => DiscoveryFault::NoCandidates,
        }
    }
}

impl View for ResolutionError {
    type V = ResolutionFault;

    open spec fn view(&self) -> ResolutionFault {
        match self {
            ResolutionError::Unparseable(v) => ResolutionFault::Unparseable(v@),
            ResolutionError::Discovery(e) => ResolutionFault::Discovery(e@),
        }
    }
}

/// The text of a resolution fault.
pub open spec fn resolution_text(f: ResolutionFault) -> Seq<char> {
    match f {
        ResolutionFault::Unparseable(v) => "unable to determine proxy host from '"@ + v + "'"@,
        ResolutionFault::Discovery(DiscoveryFault::Disabled) => "WPAD proxy discovery is disabled in configuration"@,
        ResolutionFault::Discovery(DiscoveryFault::Unavailable(why)) => "WPAD discovery failed: "@ + why,
        ResolutionFault::Discovery(DiscoveryFault::NoCandidates) => "Could not parse proxies from WPAD response"@,
    }
}

impl ResolutionError {
    /// A human-readable description of the failure.
    pub fn message(&self) -> (r: String)
        ensures
            r@ == resolution_text(self@),
    {
        match self {
            ResolutionError::Unparseable(v) => {
                let mut m = String::from_str("unable to determine proxy host from '");
                m.append(v.as_str());
                m.append("'");
                m
            },
            ResolutionError::Discovery(DiscoveryError::Disabled) => String::from_str(
                "WPAD proxy discovery is disabled in configuration",
            ),
            ResolutionError::Discovery(DiscoveryError::Unavailable(why)) => {
                let mut m = String::from_str("WPAD discovery failed: ");
                m.append(why.as_str());
                m
            },
            ResolutionError::Discovery(DiscoveryError::NoCandidates) => String::from_str(
                "Could not parse proxies from WPAD response",
            ),
        }
    }
}

/// A resolution seen as (specification, `host:port`) or its fault.
pub open spec fn outcome(r: Result<ResolvedProxy, ResolutionError>) -> Result<
    (Seq<char>, Seq<char>),
    ResolutionFault,
> {
    match r {
        Ok(p) => Ok((p.proxy_url@, p.proxy_host@)),
        Err(e) => Err(e@),
    }
}

/// Resolving one specification.
pub open spec fn resolve_value(v: Seq<char>) -> Result<(Seq<char>, Seq<char>), ResolutionFault> {
    match extract_host_port(v) {
        Some(h) => Ok((v, h)),
        None => Err(ResolutionFault::Unparseable(v)),
    }
}

/// The first specification, in order, that yields a `host:port`, with it.
pub open spec fn first_resolvable(vs: Seq<Seq<char>>) -> Option<(Seq<char>, Seq<char>)>
    decreases vs.len(),
{
    if vs.len() == 0 {
        None
    } else {
        match extract_host_port(vs[0]) {
            Some(h) => Some((vs[0], h)),
            None => first_resolvable(vs.drop_first()),
        }
    }
}

/// Resolves one proxy specification.
pub fn resolved_from_value(value: &str) -> (r: Result<ResolvedProxy, ResolutionError>)
    ensures
        outcome(r) == resolve_value(value@),
{
    match extract_proxy_host(value) {
        Some(host) => Ok(ResolvedProxy { proxy_url: String::from_str(value), proxy_host: host }),
        None => Err(ResolutionError::Unparseable(String::from_str(value))),
    }
}

/// The first of the values that yields a `host:port`.
pub fn proxy_from_env(values: &Vec<String>) -> (r: Option<ResolvedProxy>)
    ensures
        match (r, first_resolvable(values.deep_view())) {
            (Some(p), Some((u, h))) => p.proxy_url@ == u && p.proxy_host@ == h,
            (None, None) => true,
            _ => false,
        },
{
    let ghost vs = values.deep_view();
    let mut i: usize = 0;
    assert(vs.skip(0) =~= vs);
    while i < values.len()
        invariant
            i <= values.len(),
            vs == values.deep_view(),
            first_resolvable(vs) == first_resolvable(vs.skip(i as int)),
        decreases values.len() - i,
    {
        assert(vs.skip(i as int)[0] == values[i as int]@);
        assert(vs.skip(i as int).drop_first() =~= vs.skip(i + 1));
        match extract_proxy_host(values[i].as_str()) {
            Some(host) => {
                return Some(ResolvedProxy { proxy_url: values[i].clone(), proxy_host: host });
            },
            None => {},
        }
        i = i + 1;
    }
    assert(vs.skip(i as int) =~= Seq::<Seq<char>>::empty());
    None
}

/// The first present, non-empty value.
pub open spec fn first_non_empty(vs: Seq<Option<Seq<char>>>) -> Option<Seq<char>>
    decreases vs.len(),
{
    if vs.len() == 0 {
        None
    } else {
        match vs[0] {
            Some(v) => if v.len() > 0 {
                Some(v)
            } else {
                first_non_empty(vs.drop_first())
            },
            None => first_non_empty(vs.drop_first()),
        }
    }
}

/// The first present, non-empty value among those read for one variable's
/// spellings.
pub fn get_env_value(values: &Vec<Option<String>>) -> (r: Option<String>)
    ensures
        r.deep_view() == first_non_empty(values.deep_view()),
{
    let ghost vs = values.deep_view();
    let mut i: usize = 0;
    assert(vs.skip(0) =~= vs);
    while i < values.len()
        invariant
            i <= values.len(),
            vs == values.deep_view(),
            first_non_empty(vs) == first_non_empty(vs.skip(i as int)),
        decreases values.len() - i,
    {
        assert(vs.skip(i as int)[0] == values[i as int].deep_view());
        assert(vs.skip(i as int).drop_first() =~= vs.skip(i + 1));
        match &values[i] {
            Some(v) => {
                if v.as_str().unicode_len() > 0 {
                    return Some(v.clone());
                }
            },
            None => {},
        }
        i = i + 1;
    }
    assert(vs.skip(i as int) =~= Seq::<Option<Seq<char>>>::empty());
    None
}

/// The proxy to use where the choice needs no discovery: the explicit
/// specification if one is given, else the first environment value that
/// yields a `host:port`. `None` means that discovery decides.
pub fn resolve_proxy(explicit: Option<&str>, env_values: &Vec<String>) -> (r: Option<
    Result<ResolvedProxy, ResolutionError>,
>)
    ensures
        match explicit {
            Some(v) => r matches Some(x) && outcome(x) == resolve_value(v@),
            None => match first_resolvable(env_values.deep_view()) {
                Some((u, h)) => r matches Some(x) && outcome(x) == Ok::<
                    (Seq<char>, Seq<char>),
                    ResolutionFault,
                >((u, h)),
                None => r is None,
            },
        },
{
    match explicit {
        Some(v) => Some(resolved_from_value(v)),
        None => match proxy_from_env(env_values) {
            Some(p) => Some(Ok(p)),
            None => None,
        },
    }
}

/// The outcome of resolution once discovery has answered.
pub open spec fn discovered_outcome(
    discovered: Result<Seq<Seq<char>>, DiscoveryFault>,
    default: Option<Seq<char>>,
) -> Result<(Seq<char>, Seq<char>), ResolutionFault> {
    match discovered {
        Ok(c) => match first_resolvable(c) {
            Some(x) => Ok(x),
            None => match default {
                Some(v) => resolve_value(v),
                None => if c.len() > 0 {
                    Err(ResolutionFault::Unparseable(c.last()))
                } else {
                    Err(ResolutionFault::Discovery(DiscoveryFault::NoCandidates))
                },
            },
        },
        Err(e) => match default {
            Some(v) => resolve_value(v),
            None => Err(ResolutionFault::Discovery(e)),
        },
    }
}

/// Resolves from discovery's answer: the first candidate that yields a
/// `host:port`, else the configured fallback proxy, else an error.
pub fn resolve_discovered(
    discovered: Result<Vec<String>, DiscoveryError>,
    default_proxy: Option<&str>,
) -> (r: Result<ResolvedProxy, ResolutionError>)
    ensures
        outcome(r) == discovered_outcome(
            match discovered {
                Ok(c) => Ok(c.deep_view()),
                Err(e) => Err(e@),
            },
            match default_proxy {
                Some(v) => Some(v@),
                None => None,
            },
        ),
{
    match discovered {
        Ok(candidates) => {
            match proxy_from_env(&candidates) {
                Some(p) => Ok(p),
                None => match default_proxy {
                    Some(v) => resolved_from_value(v),
                    None => {
                        let n = candidates.len();
                        if n > 0 {
                            Err(ResolutionError::Unparseable(candidates[n - 1].clone()))
                        } else {
                            Err(ResolutionError::Discovery(DiscoveryError::NoCandidates))
                        }
                    },
                },
            }
        },
        Err(e) => match default_proxy {
            Some(v) => resolved_from_value(v),
            None => Err(ResolutionError::Discovery(e)),
        },
    }
}

/// The pattern of a proxy directive in a proxy auto-configuration document;
/// its group holds the target.
pub const PROXY_TARGET_PATTERN: &'static str = "(?i)\\b(?:PROXY|HTTPS?|SOCKS[45]?)\\s+([^;\\s\"]+)";

/// The text of capture group 1 of each successive match of `pattern` in
/// `text` (a match in which group 1 took no part is skipped), or `None` where
/// `pattern` is no valid expression.
pub uninterp spec fn regex_group1(pattern: Seq<char>, text: Seq<char>) -> Option<Seq<Seq<char>>>;

/// Relies on `regex::Regex::new` and `Regex::captures_iter`: group 1 of each
/// successive non-overlapping match, in order; `None` where the pattern does
/// not compile.
#[verifier::external_body]
fn capture_group1(pattern: &str, text: &str) -> (r: Option<Vec<String>>)
    ensures
        r.deep_view() == regex_group1(pattern@, text@),
{
    let re = regex::Regex::new(pattern).ok()?;
    Some(re.captures_iter(text).filter_map(|c| c.get(1)).map(|m| m.as_str().to_string()).collect())
}

/// A discovered target without surrounding whitespace, `;` and quotes, and
/// without trailing `/`.
pub open spec fn clean_target(t: Seq<char>) -> Seq<char> {
    trim_end_char(trim_char(trim_char(trim(t), ';'), '"'), '/')
}

pub open spec fn clean_targets(ts: Seq<Seq<char>>) -> Seq<Seq<char>> {
    ts.map_values(|t: Seq<char>| clean_target(t))
}

/// The discovered targets, cleaned.
pub fn clean_candidates(raw: &Vec<String>) -> (r: Vec<String>)
    ensures
        r.deep_view() == clean_targets(raw.deep_view()),
{
    let mut out: Vec<String> = Vec::new();
    let mut i: usize = 0;
    while i < raw.len()
        invariant
            i <= raw.len(),
            out.deep_view() =~= clean_targets(raw.deep_view()).take(i as int),
        decreases raw.len() - i,
    {
        let t = trim_str(raw[i].as_str());
        let t = trim_matches_char(t.as_str(), ';');
        let t = trim_matches_char(t.as_str(), '"');
        let t = trim_end_matches_char(t.as_str(), '/');
        let ghost before = out.deep_view();
        out.push(t);
        assert(out.deep_view() =~= before.push(clean_target(raw[i as int]@)));
        i = i + 1;
    }
    out
}

/// The proxy targets named in a proxy auto-configuration document, in order;
/// `DIRECT` entries name none.
pub fn detect_proxy_candidates_from_response(response: &str) -> (r: Vec<String>)
    ensures
        r.deep_view() == clean_targets(
            match regex_group1(PROXY_TARGET_PATTERN@, response@) {
                Some(v) => v,
                None => seq![],
            },
        ),
{
    match capture_group1(PROXY_TARGET_PATTERN, response) {
        Some(raw) => clean_candidates(&raw),
        None => {
            let empty: Vec<String> = Vec::new();
            assert(clean_targets(Seq::<Seq<char>>::empty()) =~= Seq::<Seq<char>>::empty());
            empty
        },
    }
}

/// The candidates of a discovery document; an error where it names none.
pub fn candidates_from_response(response: &str) -> (r: Result<Vec<String>, DiscoveryError>)
    ensures
        match r {
            Ok(v) => v.len() > 0 && v.deep_view() == clean_targets(
                match regex_group1(PROXY_TARGET_PATTERN@, response@) {
                    Some(v) => v,
                    None => seq![],
                },
            ),
            Err(e) => e is NoCandidates && clean_targets(
                match regex_group1(PROXY_TARGET_PATTERN@, response@) {
                    Some(v) => v,
                    None => seq![],
                },
            ).len() == 0,
        },
{
    let proxies = detect_proxy_candidates_from_response(response);
    if proxies.len() == 0 {
        Err(DiscoveryError::NoCandidates)
    } else {
        Ok(proxies)
    }
}

/// A kind of proxy variable.
#[derive(Debug)]
pub enum ProxyKind {
    Http,
    Https,
    Ftp,
    All,
    Rsync,
    NoProxy,
}

/// The lower- and upper-case names of a kind's environment variables.
pub open spec fn key_names(kind: ProxyKind) -> (Seq<char>, Seq<char>) {
    match kind {
        ProxyKind::Http => ("http_proxy"@, "HTTP_PROXY"@),
        ProxyKind::Https => ("https_proxy"@, "HTTPS_PROXY"@),
        ProxyKind::Ftp => ("ftp_proxy"@, "FTP_PROXY"@),
        ProxyKind::All => ("all_proxy"@, "ALL_PROXY"@),
        ProxyKind::Rsync => ("proxy_rsync"@, "PROXY_RSYNC"@),
        ProxyKind::NoProxy => ("no_proxy"@, "NO_PROXY"@),
    }
}

/// The lower- and upper-case names of a kind's environment variables.
pub fn env_keys(kind: &ProxyKind) -> (r: (&'static str, &'static str))
    ensures
        (r.0@, r.1@) == key_names(*kind),
{
    match kind {
        ProxyKind::Http => ("http_proxy", "HTTP_PROXY"),
        ProxyKind::Https => ("https_proxy", "HTTPS_PROXY"),
        ProxyKind::Ftp => ("ftp_proxy", "FTP_PROXY"),
        ProxyKind::All => ("all_proxy", "ALL_PROXY"),
        ProxyKind::Rsync => ("proxy_rsync", "PROXY_RSYNC"),
        ProxyKind::NoProxy => ("no_proxy", "NO_PROXY"),
    }
}

/// The kinds whose variables are consulted, in order, to find a proxy in
/// the environment.
pub fn env_resolution_order() -> (r: Vec<ProxyKind>)
    ensures
        r@ == seq![ProxyKind::Https, ProxyKind::Http, ProxyKind::All, ProxyKind::Ftp, ProxyKind::Rsync],
{
    let mut v: Vec<ProxyKind> = Vec::new();
    v.push(ProxyKind::Https);
    v.push(ProxyKind::Http);
    v.push(ProxyKind::All);
    v.push(ProxyKind::Ftp);
    v.push(ProxyKind::Rsync);
    assert(v@ =~= seq![ProxyKind::Https, ProxyKind::Http, ProxyKind::All, ProxyKind::Ftp, ProxyKind::Rsync]);
    v
}

/// `export KEY="VALUE"`.
pub open spec fn export_line(key: Seq<char>, value: Seq<char>) -> Seq<char> {
    "export "@ + key + "=\""@ + value + "\""@
}

/// The two export lines of one kind.
pub open spec fn export_pair(kind: ProxyKind, value: Seq<char>) -> Seq<Seq<char>> {
    seq![export_line(key_names(kind).0, value), export_line(key_names(kind).1, value)]
}

/// Appends the export lines of both spellings of `kind` set to `value`.
pub fn add_export_lines(target: &mut Vec<String>, kind: &ProxyKind, value: &str)
    ensures
        final(target).deep_view() == old(target).deep_view() + export_pair(*kind, value@),
{
    let keys = env_keys(kind);
    let ghost before = target.deep_view();
    let mut a = String::from_str("export ");
    a.append(keys.0);
    a.append("=\"");
    a.append(value);
    a.append("\"");
    target.push(a);
    let mut b = String::from_str("export ");
    b.append(keys.1);
    b.append("=\"");
    b.append(value);
    b.append("\"");
    target.push(b);
    assert(target.deep_view() =~= before + export_pair(*kind, value@));
}

pub open spec fn pair_if(on: bool, kind: ProxyKind, value: Seq<char>) -> Seq<Seq<char>> {
    if on {
        export_pair(kind, value)
    } else {
        seq![]
    }
}

/// The export lines for the enabled kinds: each proxy kind set to `url`, and
/// the no-proxy kind set to `no_proxy` where one is given and is not empty.
pub open spec fn exports(s: ProxySettings, url: Seq<char>, no_proxy: Option<Seq<char>>) -> Seq<Seq<char>> {
    pair_if(s.enable_http_proxy, ProxyKind::Http, url) + pair_if(s.enable_https_proxy, ProxyKind::Https, url)
        + pair_if(s.enable_ftp_proxy, ProxyKind::Ftp, url) + pair_if(s.enable_all_proxy, ProxyKind::All, url)
        + pair_if(s.enable_proxy_rsync, ProxyKind::Rsync, url) + match no_proxy {
        Some(v) => pair_if(s.enable_no_proxy && v.len() > 0, ProxyKind::NoProxy, v),
        None => seq![],
    }
}

/// The export lines for the enabled kinds.
pub fn gather_proxy_exports(settings: &ProxySettings, proxy_url: &str, no_proxy: Option<&str>) -> (r:
    Vec<String>)
    ensures
        r.deep_view() == exports(
            *settings,
            proxy_url@,
            match no_proxy {
                Some(v) => Some(v@),
                None => None,
            },
        ),
{
    let mut e: Vec<String> = Vec::new();
    let ghost e0 = e.deep_view();
    if settings.enable_http_proxy {
        add_export_lines(&mut e, &ProxyKind::Http, proxy_url);
    }
    let ghost e1 = e.deep_view();
    if settings.enable_https_proxy {
        add_export_lines(&mut e, &ProxyKind::Https, proxy_url);
    }
    let ghost e2 = e.deep_view();
    if settings.enable_ftp_proxy {
        add_export_lines(&mut e, &ProxyKind::Ftp, proxy_url);
    }
    let ghost e3 = e.deep_view();
    if settings.enable_all_proxy {
        add_export_lines(&mut e, &ProxyKind::All, proxy_url);
    }
    let ghost e4 = e.deep_view();
    if settings.enable_proxy_rsync {
        add_export_lines(&mut e, &ProxyKind::Rsync, proxy_url);
    }
    let ghost e5 = e.deep_view();
    let mut np_added = false;
    if settings.enable_no_proxy {
        match no_proxy {
            Some(v) => {
                if v.unicode_len() > 0 {
                    add_export_lines(&mut e, &ProxyKind::NoProxy, v);
                    np_added = true;
                }
            },
            None => {},
        }
    }
    let ghost s = *settings;
    let ghost url = proxy_url@;
    assert(e0 =~= Seq::<Seq<char>>::empty());
    assert(e1 =~= e0 + pair_if(s.enable_http_proxy, ProxyKind::Http, url));
    assert(e2 =~= e1 + pair_if(s.enable_https_proxy, ProxyKind::Https, url));
    assert(e3 =~= e2 + pair_if(s.enable_ftp_proxy, ProxyKind::Ftp, url));
    assert(e4 =~= e3 + pair_if(s.enable_all_proxy, ProxyKind::All, url));
    assert(e5 =~= e4 + pair_if(s.enable_proxy_rsync, ProxyKind::Rsync, url));
    proof {
        let npv: Option<Seq<char>> = match no_proxy {
            Some(v) => Some(v@),
            None => None,
        };
        let tail: Seq<Seq<char>> = match npv {
            Some(v) => pair_if(s.enable_no_proxy && v.len() > 0, ProxyKind::NoProxy, v),
            None => seq![],
        };
        assert(e.deep_view() =~= e5 + tail);
        assert(exports(s, url, npv) =~= e0 + pair_if(s.enable_http_proxy, ProxyKind::Http, url)
            + pair_if(s.enable_https_proxy, ProxyKind::Https, url) + pair_if(s.enable_ftp_proxy, ProxyKind::Ftp, url)
            + pair_if(s.enable_all_proxy, ProxyKind::All, url) + pair_if(s.enable_proxy_rsync, ProxyKind::Rsync, url)
            + tail);
    }
    e
}

/// The no-proxy value to apply, where that kind is enabled: the configured
/// hosts joined with `,`, else `fallback`.
pub fn no_proxy_value(settings: &ProxySettings, custom: Option<&Vec<String>>, fallback: &str) -> (r:
    Option<String>)
    ensures
        settings.enable_no_proxy ==> r.deep_view() == Some(
            match custom {
                Some(c) => join_sep(c.deep_view(), ","@),
                None => fallback@,
            },
        ),
        !settings.enable_no_proxy ==> r is None,
{
    if settings.enable_no_proxy {
        match custom {
            Some(c) => Some(join_with(c, ",")),
            None => Some(String::from_str(fallback)),
        }
    } else {
        None
    }
}

fn copy_if(on: bool, v: &str) -> (r: Option<String>)
    ensures
        r.deep_view() == if on {
            Some(v@)
        } else {
            None::<Seq<char>>
        },
{
    if on {
        Some(String::from_str(v))
    } else {
        None
    }
}

/// The state to record after applying `proxy_url`: each enabled kind holds
/// it, and the no-proxy kind holds `no_proxy`.
pub fn env_state_for(settings: &ProxySettings, proxy_url: &str, no_proxy: Option<&str>) -> (r: EnvState)
    ensures
        r.http_proxy.deep_view() == if settings.enable_http_proxy { Some(proxy_url@) } else { None::<Seq<char>> },
        r.https_proxy.deep_view() == if settings.enable_https_proxy { Some(proxy_url@) } else { None::<Seq<char>> },
        r.ftp_proxy.deep_view() == if settings.enable_ftp_proxy { Some(proxy_url@) } else { None::<Seq<char>> },
        r.all_proxy.deep_view() == if settings.enable_all_proxy { Some(proxy_url@) } else { None::<Seq<char>> },
        r.proxy_rsync.deep_view() == if settings.enable_proxy_rsync { Some(proxy_url@) } else { None::<Seq<char>> },
        r.no_proxy.deep_view() == match no_proxy {
            Some(v) => Some(v@),
            None => None,
        },
{
    EnvState {
        http_proxy: copy_if(settings.enable_http_proxy, proxy_url),
        https_proxy: copy_if(settings.enable_https_proxy, proxy_url),
        ftp_proxy: copy_if(settings.enable_ftp_proxy, proxy_url),
        all_proxy: copy_if(settings.enable_all_proxy, proxy_url),
        proxy_rsync: copy_if(settings.enable_proxy_rsync, proxy_url),
        no_proxy: match no_proxy {
            Some(v) => Some(String::from_str(v)),
            None => None,
        },
    }
}

/// The value a status line shows: the recorded one, else the one in the
/// environment; `None` (shown as not set) where that is absent or empty.
pub fn status_value(state_value: Option<&str>, env_value: Option<&str>) -> (r: Option<String>)
    ensures
        r.deep_view() == match (match state_value {
            Some(v) => Some(v@),
            None => match env_value {
                Some(v) => Some(v@),
                None => None,
            },
        }) {
            Some(v) => if v.len() > 0 {
                Some(v)
            } else {
                None
            },
            None => None::<Seq<char>>,
        },
{
    let value = match state_value {
        Some(v) => Some(v),
        None => env_value,
    };
    match value {
        Some(v) => if v.unicode_len() > 0 {
            Some(String::from_str(v))
        } else {
            None
        },
        None => None,
    }
}

} // verus!
