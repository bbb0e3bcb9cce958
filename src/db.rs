use vstd::prelude::*;
use vstd::string::*;
use crate::config::path_join;

verus! {

/// The proxy values last applied, per kind.
#[derive(Debug)]
pub struct EnvState {
    pub http_proxy: Option<String>,
    pub https_proxy: Option<String>,
    pub ftp_proxy: Option<String>,
    pub all_proxy: Option<String>,
    pub proxy_rsync: Option<String>,
    pub no_proxy: Option<String>,
}

impl Default for EnvState {
    /// Nothing recorded.
    fn default() -> (r: Self)
        ensures
            r.http_proxy is None && r.https_proxy is None && r.ftp_proxy is None && r.all_proxy is None
                && r.proxy_rsync is None && r.no_proxy is None,
    {
        EnvState {
            http_proxy: None,
            https_proxy: None,
            ftp_proxy: None,
            all_proxy: None,
            proxy_rsync: None,
            no_proxy: None,
        }
    }
}

/// File name of the state store.
pub const DB_FILE_NAME: &'static str = "env_state.db";

/// Where the state store lives: in the data directory when there is one,
/// else in the working directory.
pub fn get_db_path(data_dir: Option<&str>) -> (r: String)
    ensures
        r@ == match data_dir {
            Some(d) => path_join(d@, DB_FILE_NAME@),
            None => DB_FILE_NAME@,
        },
{
    match data_dir {
        Some(d) => {
            proof {
                reveal_strlit("env_state.db");
            }
            let dlen = d.unicode_len();
            let mut path = String::from_str(d);
            if !(dlen > 0 && d.get_char(dlen - 1) == '/') {
                path.append("/");
                proof {
                    reveal_strlit("/");
                }
            }
            path.append(DB_FILE_NAME);
            path
        },
        None => String::from_str(DB_FILE_NAME),
    }
}

} // verus!
