//! Process configuration: which addresses to listen on, where the HTTP
//! listener redirects to, and where the TLS certificate lives. The
//! choice between the two fixed profiles is made here; reading the
//! command line is the caller's business.

use vstd::prelude::*;

verus! {

/// The configuration of one server process.
pub struct Config {
    pub mode: &'static str,
    pub base_http_url: &'static str,
    pub base_https_url: &'static str,
    pub https_redirect: &'static str,
    pub ssl_cert: &'static str,
    pub ssl_key: &'static str,
}

/// The configuration profile for the given mode: the local development
/// profile when `dev_mode` holds, the production profile otherwise.
pub fn get_config(dev_mode: bool) -> (r: Config)
    ensures
        dev_mode ==> r.mode@ == "dev"@ && r.base_http_url@ == "127.0.0.1:8000"@
            && r.base_https_url@ == "127.0.0.1:443"@ && r.https_redirect@
            == "https://127.0.0.1:443"@ && r.ssl_cert@ == "cert_local/cert.pem"@ && r.ssl_key@
            == "cert_local/key.pem"@,
        !dev_mode ==> r.mode@ == "prod"@ && r.base_http_url@ == "0.0.0.0:80"@
            && r.base_https_url@ == "0.0.0.0:443"@ && r.https_redirect@ == "https://badang.xyz"@
            && r.ssl_cert@ == "/etc/letsencrypt/live/badang.xyz/fullchain.pem"@ && r.ssl_key@
            == "/etc/letsencrypt/live/badang.xyz/privkey.pem"@,
{
    if dev_mode {
        Config {
            mode: "dev",
            base_http_url: "127.0.0.1:8000",
            base_https_url: "127.0.0.1:443",
            https_redirect: "https://127.0.0.1:443",
            ssl_cert: "cert_local/cert.pem",
            ssl_key: "cert_local/key.pem",
        }
    } else {
        Config {
            mode: "prod",
            base_http_url: "0.0.0.0:80",
            base_https_url: "0.0.0.0:443",
            https_redirect: "https://badang.xyz",
            ssl_cert: "/etc/letsencrypt/live/badang.xyz/fullchain.pem",
            ssl_key: "/etc/letsencrypt/live/badang.xyz/privkey.pem",
        }
    }
}

} // verus!
