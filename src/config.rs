use vstd::prelude::*;
use vstd::string::*;
use crate::defaults::{DEFAULT_HOSTS_FILE, DEFAULT_WPAD_URL};
use crate::text::{copy_strings, join_sep, join_with, trim, trim_str};

verus! {

/// Which proxy variables the tool manages.
#[derive(Debug, Clone, Copy)]
pub struct ProxySettings {
    pub enable_http_proxy: bool,
    pub enable_https_proxy: bool,
    pub enable_ftp_proxy: bool,
    pub enable_all_proxy: bool,
    pub enable_proxy_rsync: bool,
    pub enable_no_proxy: bool,
}

impl Default for ProxySettings {
    /// Every variable managed.
    fn default() -> (r: Self)
        ensures
            r.enable_http_proxy && r.enable_https_proxy && r.enable_ftp_proxy && r.enable_all_proxy
                && r.enable_proxy_rsync && r.enable_no_proxy,
    {
        ProxySettings {
            enable_http_proxy: true,
            enable_https_proxy: true,
            enable_ftp_proxy: true,
            enable_all_proxy: true,
            enable_proxy_rsync: true,
            enable_no_proxy: true,
        }
    }
}

/// The application settings.
#[derive(Debug)]
pub struct AppConfig {
    pub default_hosts_file: Option<String>,
    pub no_proxy: Option<Vec<String>>,
    pub default_proxy: Option<String>,
    pub enable_wpad_discovery: Option<bool>,
    pub wpad_url: Option<String>,
    pub proxy_settings: ProxySettings,
}

impl Default for AppConfig {
    /// Hosts file `hosts`, discovery on at the built-in WPAD address, every
    /// variable managed, and neither a no-proxy list nor a fallback proxy.
    fn default() -> (r: Self)
        ensures
            r.default_hosts_file.deep_view() == Some(DEFAULT_HOSTS_FILE@),
            r.no_proxy is None,
            r.default_proxy is None,
            r.enable_wpad_discovery == Some(true),
            r.wpad_url.deep_view() == Some(DEFAULT_WPAD_URL@),
            r.proxy_settings.enable_http_proxy && r.proxy_settings.enable_https_proxy
                && r.proxy_settings.enable_ftp_proxy && r.proxy_settings.enable_all_proxy
                && r.proxy_settings.enable_proxy_rsync && r.proxy_settings.enable_no_proxy,
    {
        AppConfig {
            default_hosts_file: Some(String::from_str(DEFAULT_HOSTS_FILE)),
            no_proxy: None,
            default_proxy: None,
            enable_wpad_discovery: Some(true),
            wpad_url: Some(String::from_str(DEFAULT_WPAD_URL)),
            proxy_settings: ProxySettings::default(),
        }
    }
}

/// One setting, with its type, meaning, default and current value as text.
#[derive(Debug)]
pub struct ConfigOptionDescriptor {
    pub key: &'static str,
    pub value_type: &'static str,
    pub description: &'static str,
    pub default: String,
    pub current: String,
}

/// What a [`ConfigOptionDescriptor`] holds, as character sequences.
pub struct OptionRow {
    pub key: Seq<char>,
    pub value_type: Seq<char>,
    pub description: Seq<char>,
    pub default: Seq<char>,
    pub current: Seq<char>,
}

impl View for ConfigOptionDescriptor {
    type V = OptionRow;

    open spec fn view(&self) -> OptionRow {
        OptionRow {
            key: self.key@,
            value_type: self.value_type@,
            description: self.description@,
            default: self.default@,
            current: self.current@,
        }
    }
}

/// An optional text, or `None` spelled out.
pub open spec fn text_or_none(v: Option<Seq<char>>) -> Seq<char> {
    match v {
        Some(s) => s,
        None => "None"@,
    }
}

/// A list joined with `", "`, or `None` spelled out where it is absent or empty.
pub open spec fn list_or_none(v: Option<Seq<Seq<char>>>) -> Seq<char> {
    match v {
        Some(items) => if items.len() > 0 {
            join_sep(items, ", "@)
        } else {
            "None"@
        },
        None => "None"@,
    }
}

pub open spec fn bool_text(b: bool) -> Seq<char> {
    if b {
        "true"@
    } else {
        "false"@
    }
}

/// `Some` strings seen as character sequences.
pub open spec fn list_view(v: Option<Vec<String>>) -> Option<Seq<Seq<char>>> {
    match v {
        Some(items) => Some(items.deep_view()),
        None => None,
    }
}

pub open spec fn row(
    key: Seq<char>,
    value_type: Seq<char>,
    description: Seq<char>,
    default: Seq<char>,
    current: Seq<char>,
) -> OptionRow {
    OptionRow { key, value_type, description, default, current }
}

/// The rows that describe each setting: the built-in default beside the
/// value in `c`.
pub open spec fn option_rows(c: AppConfig) -> Seq<OptionRow> {
    seq![
        row("default_hosts_file"@, "string"@, "File name used for proxy host entries within the config directory"@,
            DEFAULT_HOSTS_FILE@, text_or_none(c.default_hosts_file.deep_view())),
        row("no_proxy"@, "list<string>"@, "Additional hosts appended to the NO_PROXY environment variable"@,
            "None"@, list_or_none(list_view(c.no_proxy))),
        row("default_proxy"@, "string"@, "Fallback proxy URL used when detection is disabled or unavailable"@,
            "None"@, text_or_none(c.default_proxy.deep_view())),
        row("enable_wpad_discovery"@, "bool"@, "Enable Web Proxy Auto-Discovery (WPAD) when no proxy URL is provided"@,
            "true"@, bool_text(c.enable_wpad_discovery.unwrap_or(true))),
        row("wpad_url"@, "string"@, "Override the WPAD URL used when discovery is enabled"@,
            DEFAULT_WPAD_URL@, text_or_none(c.wpad_url.deep_view())),
        row("proxy_settings.enable_http_proxy"@, "bool"@, "Control whether HTTP proxy environment variables are managed"@,
            "true"@, bool_text(c.proxy_settings.enable_http_proxy)),
        row("proxy_settings.enable_https_proxy"@, "bool"@, "Control whether HTTPS proxy environment variables are managed"@,
            "true"@, bool_text(c.proxy_settings.enable_https_proxy)),
        row("proxy_settings.enable_ftp_proxy"@, "bool"@, "Control whether FTP proxy environment variables are managed"@,
            "true"@, bool_text(c.proxy_settings.enable_ftp_proxy)),
        row("proxy_settings.enable_all_proxy"@, "bool"@, "Control whether ALL_PROXY environment variables are managed"@,
            "true"@, bool_text(c.proxy_settings.enable_all_proxy)),
        row("proxy_settings.enable_proxy_rsync"@, "bool"@, "Control whether PROXY_RSYNC environment variables are managed"@,
            "true"@, bool_text(c.proxy_settings.enable_proxy_rsync)),
        row("proxy_settings.enable_no_proxy"@, "bool"@, "Control whether the NO_PROXY environment variable is managed"@,
            "true"@, bool_text(c.proxy_settings.enable_no_proxy)),
    ]
}

/// The text of an optional value, or `None`.
pub fn clone_or_none(value: Option<&String>) -> (r: String)
    ensures
        r@ == text_or_none(
            match value {
                Some(s) => Some(s@),
                None => None,
            },
        ),
{
    match value {
        Some(v) => v.clone(),
        None => String::from_str("None"),
    }
}

/// The items of an optional list joined with `", "`, or `None`.
pub fn join_list(value: Option<&Vec<String>>) -> (r: String)
    ensures
        r@ == list_or_none(
            match value {
                Some(v) => Some(v.deep_view()),
                None => None,
            },
        ),
{
    match value {
        Some(items) => {
            if items.len() > 0 {
                join_with(items, ", ")
            } else {
                String::from_str("None")
            }
        },
        None => String::from_str("None"),
    }
}

fn bool_string(b: bool) -> (r: String)
    ensures
        r@ == bool_text(b),
{
    if b {
        String::from_str("true")
    } else {
        String::from_str("false")
    }
}

fn describe(
    key: &'static str,
    value_type: &'static str,
    description: &'static str,
    default: String,
    current: String,
) -> (r: ConfigOptionDescriptor)
    ensures
        r@ == row(key@, value_type@, description@, default@, current@),
{
    ConfigOptionDescriptor { key, value_type, description, default, current }
}

/// Describes every setting, with the built-in default beside the value in
/// `current`.
pub fn describe_config_options(current: &AppConfig) -> (r: Vec<ConfigOptionDescriptor>)
    ensures
        r@.map_values(|o: ConfigOptionDescriptor| o@) == option_rows(*current),
{
    let d = AppConfig::default();
    let c = current;
    let mut o: Vec<ConfigOptionDescriptor> = Vec::new();
    proof {
        reveal_strlit("None");
        reveal_strlit("true");
    }
    o.push(describe("default_hosts_file", "string",
        "File name used for proxy host entries within the config directory",
        clone_or_none(d.default_hosts_file.as_ref()), clone_or_none(c.default_hosts_file.as_ref())));
    o.push(describe("no_proxy", "list<string>",
        "Additional hosts appended to the NO_PROXY environment variable",
        join_list(d.no_proxy.as_ref()), join_list(c.no_proxy.as_ref())));
    o.push(describe("default_proxy", "string",
        "Fallback proxy URL used when detection is disabled or unavailable",
        clone_or_none(d.default_proxy.as_ref()), clone_or_none(c.default_proxy.as_ref())));
    o.push(describe("enable_wpad_discovery", "bool",
        "Enable Web Proxy Auto-Discovery (WPAD) when no proxy URL is provided",
        bool_string(d.enable_wpad_discovery.unwrap_or(true)),
        bool_string(c.enable_wpad_discovery.unwrap_or(d.enable_wpad_discovery.unwrap_or(true)))));
    o.push(describe("wpad_url", "string",
        "Override the WPAD URL used when discovery is enabled",
        clone_or_none(d.wpad_url.as_ref()), clone_or_none(c.wpad_url.as_ref())));
    o.push(describe("proxy_settings.enable_http_proxy", "bool",
        "Control whether HTTP proxy environment variables are managed",
        bool_string(d.proxy_settings.enable_http_proxy), bool_string(c.proxy_settings.enable_http_proxy)));
    o.push(describe("proxy_settings.enable_https_proxy", "bool",
        "Control whether HTTPS proxy environment variables are managed",
        bool_string(d.proxy_settings.enable_https_proxy), bool_string(c.proxy_settings.enable_https_proxy)));
    o.push(describe("proxy_settings.enable_ftp_proxy", "bool",
        "Control whether FTP proxy environment variables are managed",
        bool_string(d.proxy_settings.enable_ftp_proxy), bool_string(c.proxy_settings.enable_ftp_proxy)));
    o.push(describe("proxy_settings.enable_all_proxy", "bool",
        "Control whether ALL_PROXY environment variables are managed",
        bool_string(d.proxy_settings.enable_all_proxy), bool_string(c.proxy_settings.enable_all_proxy)));
    o.push(describe("proxy_settings.enable_proxy_rsync", "bool",
        "Control whether PROXY_RSYNC environment variables are managed",
        bool_string(d.proxy_settings.enable_proxy_rsync), bool_string(c.proxy_settings.enable_proxy_rsync)));
    o.push(describe("proxy_settings.enable_no_proxy", "bool",
        "Control whether the NO_PROXY environment variable is managed",
        bool_string(d.proxy_settings.enable_no_proxy), bool_string(c.proxy_settings.enable_no_proxy)));
    assert(o@.map_values(|o: ConfigOptionDescriptor| o@) =~= option_rows(*current));
    o
}

/// The fallback proxy of `config`, trimmed; `None` where it is absent or blank.
pub fn get_default_proxy(config: &AppConfig) -> (r: Option<String>)
    ensures
        r.deep_view() == match config.default_proxy.deep_view() {
            Some(v) => if trim(v).len() > 0 {
                Some(trim(v))
            } else {
                None
            },
            None => None,
        },
{
    match &config.default_proxy {
        Some(v) => {
            let t = trim_str(v.as_str());
            if t.unicode_len() > 0 {
                Some(t)
            } else {
                None
            }
        },
        None => None,
    }
}

/// Whether discovery is on (it is unless `config` says otherwise) and the
/// WPAD address to fetch: the configured one, else `fallback_url`.
pub fn get_wpad_config(config: &AppConfig, fallback_url: &str) -> (r: (bool, String))
    ensures
        r.0 == config.enable_wpad_discovery.unwrap_or(true),
        r.1@ == match config.wpad_url.deep_view() {
            Some(u) => u,
            None => fallback_url@,
        },
{
    let enabled = config.enable_wpad_discovery.unwrap_or(true);
    let url = match &config.wpad_url {
        Some(u) => u.clone(),
        None => String::from_str(fallback_url),
    };
    (enabled, url)
}

/// `name` under the directory `dir`; an absolute `name` stands alone.
pub open spec fn path_join(dir: Seq<char>, name: Seq<char>) -> Seq<char> {
    if name.len() > 0 && name[0] == '/' {
        name
    } else if dir.len() > 0 && dir.last() == '/' {
        dir + name
    } else {
        dir + seq!['/'] + name
    }
}

/// The hosts registry's path: the configured file name, else `hosts.txt`,
/// under the configuration directory `config_dir`.
pub fn get_hosts_file_path(config_dir: &str, config: &AppConfig) -> (r: String)
    ensures
        r@ == path_join(
            config_dir@,
            match config.default_hosts_file.deep_view() {
                Some(n) => n,
                None => "hosts.txt"@,
            },
        ),
{
    let name = match &config.default_hosts_file {
        Some(n) => n.clone(),
        None => String::from_str("hosts.txt"),
    };
    let nlen = name.as_str().unicode_len();
    if nlen > 0 && name.as_str().get_char(0) == '/' {
        return name;
    }
    let dlen = config_dir.unicode_len();
    let mut path = String::from_str(config_dir);
    if !(dlen > 0 && config_dir.get_char(dlen - 1) == '/') {
        path.append("/");
        proof {
            reveal_strlit("/");
        }
    }
    path.append(name.as_str());
    path
}

/// The configured extra no-proxy hosts.
pub fn get_custom_no_proxy(config: &AppConfig) -> (r: Option<Vec<String>>)
    ensures
        list_view(r) == list_view(config.no_proxy),
{
    match &config.no_proxy {
        Some(v) => Some(copy_strings(v)),
        None => None,
    }
}

/// The configured proxy settings, or the defaults where no configuration
/// could be read.
pub fn get_proxy_settings(config: Option<&AppConfig>) -> (r: ProxySettings)
    ensures
        match config {
            Some(c) => r == c.proxy_settings,
            None => r.enable_http_proxy && r.enable_https_proxy && r.enable_ftp_proxy
                && r.enable_all_proxy && r.enable_proxy_rsync && r.enable_no_proxy,
        },
{
    match config {
        Some(c) => c.proxy_settings,
        None => ProxySettings::default(),
    }
}

} // verus!
