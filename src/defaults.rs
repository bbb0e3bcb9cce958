use vstd::prelude::*;
use vstd::string::*;

verus! {

/// Hosts that bypass the proxy unless configured otherwise.
pub const DEFAULT_NO_PROXY: &'static str = "localhost,127.0.0.1";

/// Where proxy auto-discovery looks unless configured otherwise.
pub const DEFAULT_WPAD_URL: &'static str = "http://wpad.local/wpad.dat";

/// File name of the hosts registry unless configured otherwise.
pub const DEFAULT_HOSTS_FILE: &'static str = "hosts";

/// The hosts that bypass the proxy: the value configured in the environment,
/// else the built-in list.
pub fn default_no_proxy(configured: Option<&str>) -> (r: String)
    ensures
        r@ == match configured {
            Some(v) => v@,
            None => DEFAULT_NO_PROXY@,
        },
{
    match configured {
        Some(v) => String::from_str(v),
        None => String::from_str(DEFAULT_NO_PROXY),
    }
}

/// The WPAD address: the value configured in the environment, else the
/// built-in one.
pub fn default_wpad_url(configured: Option<&str>) -> (r: String)
    ensures
        r@ == match configured {
            Some(v) => v@,
            None => DEFAULT_WPAD_URL@,
        },
{
    match configured {
        Some(v) => String::from_str(v),
        None => String::from_str(DEFAULT_WPAD_URL),
    }
}

} // verus!
