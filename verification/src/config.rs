//! Server configuration values and the listen-address grammar.
//!
//! Loading and layering the configuration (files, environment) is I/O and
//! stays outside the library; what lives here is the configuration record
//! with its defaults and the parsing of a listen-address entry.

use vstd::prelude::*;

verus! {

/// The application configuration record. Values are layered from defaults,
/// configuration files, and environment variables by the caller.
pub struct Config {
    /// Prefix for certain operations, e.g. file paths.
    pub prefix: String,
    /// Logging level for the application.
    pub log_level: String,
    /// Primary listen address and port.
    pub server_listen_primary: String,
    /// Secondary listen address and port; may be empty.
    pub server_listen_secondary: String,
    /// Optional path to an SSL certificate file.
    pub ssl_cert: Option<String>,
    /// Optional path to an SSL private key file.
    pub ssl_key: Option<String>,
}

impl Default for Config {
    /// The hardcoded defaults, the first layer of configuration loading.
    fn default() -> (r: Config)
        ensures
            r.prefix@ == "/usr/local/rucho"@,
            r.log_level@ == "info"@,
            r.server_listen_primary@ == "0.0.0.0:8080"@,
            r.server_listen_secondary@ == "0.0.0.0:9090"@,
            r.ssl_cert is None,
            r.ssl_key is None,
    {
        Config {
            prefix: String::from_str("/usr/local/rucho"),
            log_level: String::from_str("info"),
            server_listen_primary: String::from_str("0.0.0.0:8080"),
            server_listen_secondary: String::from_str("0.0.0.0:9090"),
            ssl_cert: None,
            ssl_key: None,
        }
    }
}

/// Returns the path of the PID file used for process management.
pub fn pid_file_path() -> (r: &'static str)
    ensures
        r@ == "/var/run/rucho/rucho.pid"@,
{
    "/var/run/rucho/rucho.pid"
}

/// Whether a listen string carries the SSL marker suffix.
pub open spec fn ends_with_ssl(s: Seq<char>) -> bool {
    s.len() >= 4 && s.subrange(s.len() - 4, s.len() as int) == " ssl"@
}

/// The listen string with every trailing SSL marker removed.
pub open spec fn spec_trim_ssl(s: Seq<char>) -> Seq<char>
    decreases s.len(),
{
    if ends_with_ssl(s) {
        spec_trim_ssl(s.subrange(0, s.len() - 4))
    } else {
        s
    }
}

/// Checks the SSL marker at the end of the first `end` characters.
fn ends_ssl_at(s: &str, end: usize) -> (r: bool)
    requires
        end <= s@.len(),
    ensures
        r == ends_with_ssl(s@.subrange(0, end as int)),
{
    proof {
        reveal_strlit(" ssl");
    }
    if end < 4 {
        return false;
    }
    let r = s.get_char(end - 4) == ' ' && s.get_char(end - 3) == 's' && s.get_char(end - 2) == 's'
        && s.get_char(end - 1) == 'l';
    proof {
        reveal_strlit(" ssl");
        let sub = s@.subrange(0, end as int);
        assert(sub.subrange(end - 4, end as int) =~= s@.subrange(end - 4, end as int));
        if r {
            assert(s@.subrange(end - 4, end as int) =~= " ssl"@);
        } else {
            if s@.subrange(end - 4, end as int) == " ssl"@ {
                assert(s@[end - 4] == s@.subrange(end - 4, end as int)[0]);
                assert(s@[end - 3] == s@.subrange(end - 4, end as int)[1]);
                assert(s@[end - 2] == s@.subrange(end - 4, end as int)[2]);
                assert(s@[end - 1] == s@.subrange(end - 4, end as int)[3]);
                assert(false);
            }
        }
    }
    r
}

/// Splits a listen entry into its address and an SSL flag: an empty entry
/// is `None`; the flag says whether the entry ends in the SSL marker, and
/// the address is the entry with every trailing marker stripped.
pub fn parse_listen_address(listen_str: &str) -> (r: Option<(String, bool)>)
    ensures
        r is None <==> listen_str@.len() == 0,
        r matches Some((addr, ssl)) ==> addr@ == spec_trim_ssl(listen_str@) && ssl == ends_with_ssl(
            listen_str@,
        ),
{
    let n = listen_str.unicode_len();
    if n == 0 {
        return None;
    }
    proof {
        assert(listen_str@.subrange(0, n as int) =~= listen_str@);
    }
    if !ends_ssl_at(listen_str, n) {
        return Some((listen_str.to_owned(), false));
    }
    let mut end: usize = n;
    while ends_ssl_at(listen_str, end)
        invariant
            end <= n,
            n == listen_str@.len(),
            spec_trim_ssl(listen_str@) == spec_trim_ssl(listen_str@.subrange(0, end as int)),
        decreases end,
    {
        proof {
            assert(listen_str@.subrange(0, end as int).subrange(0, end - 4) =~= listen_str@
                .subrange(0, end as int - 4));
        }
        end = end - 4;
    }
    let addr = listen_str.substring_char(0, end);
    proof {
        assert(addr@ == listen_str@.subrange(0, end as int));
    }
    Some((addr.to_owned(), true))
}

} // verus!
