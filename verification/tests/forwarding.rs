use cuzi::config::{Config, ProxyConfig};
use cuzi::error::CuziError;
use cuzi::http::HTTPObject;
use cuzi::proxy::{configure_proxy, find_proxy};

fn proxy(path: &str, target: &str, port: i32, tls: Option<bool>) -> ProxyConfig {
    ProxyConfig {
        path: path.to_string(),
        target: target.to_string(),
        target_port: port,
        use_tls: tls,
    }
}

fn sample_config() -> Config {
    Config {
        port: 2001,
        proxies: vec![
            proxy("/", "example.com", 443, Some(true)),
            proxy("/api", "api.local", 8080, None),
            proxy("/", "shadowed.com", 1, Some(false)),
        ],
    }
}

fn read_head(obj: &mut HTTPObject, start: &str, lines: &[&str]) {
    obj.read_info(start).unwrap();
    obj.read_headers_start().unwrap();
    for line in lines {
        if !obj.read_headers_step(line).unwrap() {
            break;
        }
    }
}

#[test]
fn first_proxy_with_path_is_found() {
    let config = sample_config();
    let p = find_proxy("/", &config).unwrap();
    assert_eq!(p.target, "example.com");
    assert_eq!(find_proxy("/api", &config).unwrap().target_port, 8080);
    assert!(find_proxy("/missing", &config).is_none());
}

#[test]
fn configure_proxy_gives_server_address() {
    let config = sample_config();
    let mut req = HTTPObject::new();
    req.read_method("GET / HTTP/1.1\r\n").unwrap();
    let (p, addr) = configure_proxy(&req, &config).unwrap();
    assert_eq!(p.target, "example.com");
    assert_eq!(addr, "example.com:443");
    assert!(p.wants_tls());
}

#[test]
fn configure_proxy_without_route_fails() {
    let config = sample_config();
    let mut req = HTTPObject::new();
    req.read_method("GET /nowhere HTTP/1.1\r\n").unwrap();
    match configure_proxy(&req, &config) {
        Err(CuziError::NoProxyMatched(u)) => assert_eq!(u, "/nowhere"),
        other => panic!("unexpected {:?}", other.map(|(_, a)| a)),
    }
}

#[test]
fn negative_port_is_written_with_sign() {
    let config = Config { port: 1, proxies: vec![proxy("/", "h", -80, None)] };
    let mut req = HTTPObject::new();
    req.read_method("GET / HTTP/1.1\r\n").unwrap();
    let (p, addr) = configure_proxy(&req, &config).unwrap();
    assert_eq!(addr, "h:-80");
    assert!(!p.wants_tls());
}

#[test]
fn start_lines_are_written_per_side() {
    let mut req = HTTPObject::new();
    req.read_method("GET /a HTTP/1.1\r\n").unwrap();
    assert_eq!(req.start_line("client"), "GET /a HTTP/1.1\r\n");
    let mut resp = HTTPObject::new();
    resp.read_response("HTTP/1.1 301 Moved Permanently\r\n").unwrap();
    assert_eq!(resp.start_line("server"), "HTTP/1.1 301 Moved Permanently\r\n");
}

#[test]
fn request_line_round_trips() {
    for line in ["GET /a HTTP/1.1\r\n", "GET\t /b?x=1 \tHTTP/1.1\r\n"] {
        let mut first = HTTPObject::new();
        first.read_method(line).unwrap();
        let mut again = HTTPObject::new();
        again.read_method(&first.start_line("client")).unwrap();
        assert_eq!(again.method, first.method);
        assert_eq!(again.uri, first.uri);
    }
}

#[test]
fn status_line_round_trips() {
    for line in ["HTTP/1.1 200 OK\r\n", "HTTP/1.1 404  Not  Found \r\n", "HTTP/1.1 204 \r\n"] {
        let mut first = HTTPObject::new();
        first.read_response(line).unwrap();
        let mut again = HTTPObject::new();
        again.read_response(&first.start_line("server")).unwrap();
        assert_eq!(again.status_code, first.status_code);
        assert_eq!(again.status, first.status);
    }
}

#[test]
fn client_headers_point_host_at_target() {
    let target = proxy("/", "backend.internal", 80, None);
    let mut req = HTTPObject::new();
    read_head(&mut req, "GET / HTTP/1.1\r\n", &["Host: public.example\r\n", "Accept: */*\r\n", "\r\n"]);
    let text = req.forward_headers("client", &target);
    assert_eq!(text, "Host: backend.internal\r\nAccept: */*\r\n\r\n");
    assert_eq!(req.get_header("host"), Some("backend.internal"));
}

#[test]
fn server_headers_are_forwarded_unchanged() {
    let target = proxy("/", "backend.internal", 80, None);
    let mut resp = HTTPObject::new();
    read_head(&mut resp, "HTTP/1.1 200 OK\r\n", &["Host: kept\r\n", "\r\n"]);
    let text = resp.forward_headers("server", &target);
    assert_eq!(text, "Host: kept\r\n\r\n");
    let mut none = HTTPObject::new();
    read_head(&mut none, "GET / HTTP/1.1\r\n", &["\r\n"]);
    assert_eq!(none.forward_headers("client", &target), "\r\n");
}

#[test]
fn forwarded_header_lines_read_back_the_same() {
    let mut req = HTTPObject::new();
    read_head(&mut req, "GET / HTTP/1.1\r\n", &["A:1\r\n", "B:\t two words\r\n", "\r\n"]);
    let target = proxy("/", "t", 1, None);
    let text = req.forward_headers("server", &target);
    let reader = HTTPObject::new();
    let lines: Vec<String> = text.split_inclusive("\r\n").map(|s| s.to_string()).collect();
    assert_eq!(lines.len(), 3);
    for (i, line) in lines.iter().take(2).enumerate() {
        let (k, v) = reader.read_header(line).unwrap().unwrap();
        assert_eq!(k, *req.headers.name(i));
        assert_eq!(v, *req.headers.value(i));
    }
}
