//! Choosing the configured proxy route for a request.
use vstd::prelude::*;

use crate::config::{Config, ProxyConfig};
use crate::error::CuziError;
use crate::http::HTTPObject;
use crate::text::{
    all_digits, decimal, decimal_string, digits_value, lemma_digits_value, str_eq,
};

verus! {

/// Proxy `i` is the first whose path is `path`.
pub open spec fn is_first_proxy(ps: Seq<ProxyConfig>, path: Seq<char>, i: int) -> bool {
    &&& 0 <= i < ps.len()
    &&& ps[i].path@ == path
    &&& forall|j: int| 0 <= j < i ==> (#[trigger] ps[j]).path@ != path
}

/// The position of the first proxy whose path is `path`, if there is one.
pub open spec fn proxy_index(ps: Seq<ProxyConfig>, path: Seq<char>) -> Option<int> {
    if exists|i: int| 0 <= i < ps.len() && (#[trigger] ps[i]).path@ == path {
        Some(choose|i: int| is_first_proxy(ps, path, i))
    } else {
        None
    }
}

/// The `target:port` address of a proxy's server.
pub open spec fn server_address(p: ProxyConfig) -> Seq<char> {
    p.target@ + seq![':'] + decimal(p.target_port as int)
}

/// Returns the first proxy configured for `path`.
pub fn find_proxy<'a>(path: &str, config: &'a Config) -> (r: Option<&'a ProxyConfig>)
    ensures
        match proxy_index(config.proxies@, path@) {
            Some(i) => r matches Some(p) && *p == config.proxies@[i],
            None => r is None,
        },
{
    let n = config.proxies.len();
    let mut i: usize = 0;
    while i < n
        invariant
            n == config.proxies@.len(),
            i <= n,
            forall|j: int| 0 <= j < i ==> (#[trigger] config.proxies@[j]).path@ != path@,
        decreases n - i,
    {
        let proxy = &config.proxies[i];
        if str_eq(proxy.path.as_str(), path) {
            proof {
                let ps = config.proxies@;
                assert(is_first_proxy(ps, path@, i as int));
                assert(ps[i as int].path@ == path@);
                let k = choose|k: int| is_first_proxy(ps, path@, k);
                assert(is_first_proxy(ps, path@, k));
                if k < i {
                    assert(ps[k].path@ != path@);
                } else if i < k {
                    assert(ps[i as int].path@ != path@);
                }
            }
            return Some(proxy);
        }
        i = i + 1;
    }
    None
}

/// Finds the proxy for the request's URI and the address of its server.
pub fn configure_proxy<'a>(request: &HTTPObject, config: &'a Config) -> (r: Result<
    (&'a ProxyConfig, String),
    CuziError,
>)
    ensures
        match proxy_index(config.proxies@, request.uri@) {
            Some(i) => r matches Ok((p, a)) && *p == config.proxies@[i] && a@ == server_address(
                config.proxies@[i],
            ),
            None => r matches Err(CuziError::NoProxyMatched(u)) && u@ == request.uri@,
        },
{
    match find_proxy(request.uri.as_str(), config) {
        None => Err(CuziError::NoProxyMatched(request.uri.clone())),
        Some(proxy_config) => {
            let mut server_address = proxy_config.target.clone();
            proof {
                reveal_strlit(":");
            }
            server_address.append(":");
            let port = decimal_string(proxy_config.target_port);
            server_address.append(port.as_str());
            Ok((proxy_config, server_address))
        },
    }
}

/// The route chosen for a URI is one whose path equals the URI exactly, and
/// the first such route; when none is chosen, no route has that path.
pub proof fn lemma_proxy_index(ps: Seq<ProxyConfig>, uri: Seq<char>)
    ensures
        proxy_index(ps, uri) matches Some(i) ==> {
            &&& 0 <= i < ps.len()
            &&& ps[i].path@ == uri
            &&& forall|j: int| 0 <= j < i ==> (#[trigger] ps[j]).path@ != uri
        },
        proxy_index(ps, uri) is None ==> forall|j: int|
            0 <= j < ps.len() ==> (#[trigger] ps[j]).path@ != uri,
{
    if exists|i: int| 0 <= i < ps.len() && (#[trigger] ps[i]).path@ == uri {
        lemma_first_proxy_exists(ps, uri, ps.len() as int);
    }
}

/// When some route among the first `n` has path `uri`, a first one does.
proof fn lemma_first_proxy_exists(ps: Seq<ProxyConfig>, uri: Seq<char>, n: int)
    requires
        0 <= n <= ps.len(),
        exists|i: int| 0 <= i < n && (#[trigger] ps[i]).path@ == uri,
    ensures
        exists|i: int| is_first_proxy(ps, uri, i),
    decreases n,
{
    if exists|i: int| 0 <= i < n - 1 && (#[trigger] ps[i]).path@ == uri {
        lemma_first_proxy_exists(ps, uri, n - 1);
    } else {
        assert(ps[n - 1].path@ == uri);
        assert(is_first_proxy(ps, uri, n - 1));
    }
}

/// The address of a route's server is its target, `:`, and the configured
/// port in decimal: for a port `n >= 0` decimal digits without leading zero
/// worth `n`, for a negative port `-` and such digits worth `-n`. It does not
/// depend on whether the route uses TLS.
pub proof fn lemma_server_address(p: ProxyConfig, tls: Option<bool>)
    ensures
        server_address(p).len() > p.target@.len() + 1,
        server_address(p).take(p.target@.len() + 1 as int) == p.target@ + seq![':'],
        ({
            let d = server_address(p).skip(p.target@.len() + 1 as int);
            &&& p.target_port >= 0 ==> all_digits(d) && digits_value(d) == p.target_port && (
            d[0] == '0' ==> p.target_port == 0)
            &&& p.target_port < 0 ==> d[0] == '-' && all_digits(d.drop_first()) && digits_value(
                d.drop_first(),
            ) == -p.target_port && d.drop_first()[0] != '0'
        }),
        server_address(ProxyConfig { use_tls: tls, ..p }) == server_address(p),
{
    let t = p.target@;
    let n = p.target_port as int;
    let d = decimal(n);
    assert(server_address(p) =~= t + seq![':'] + d);
    assert(server_address(p).take(t.len() + 1 as int) =~= t + seq![':']);
    assert(server_address(p).skip(t.len() + 1 as int) =~= d);
    if n >= 0 {
        lemma_digits_value(n as nat);
    } else {
        lemma_digits_value((-n) as nat);
        assert(d.drop_first() =~= crate::text::digits((-n) as nat));
    }
}

} // verus!
