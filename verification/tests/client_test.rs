use hearth::client::{
    status_label,
    encode_mac, ensure_success, get_request, post_request, response_body, response_status,
    split_url,
};

#[test]
fn ensure_success_accepts_2xx() {
    assert!(ensure_success("HTTP/1.1 200 OK\r\nContent-Length: 2\r\n\r\n{}").is_ok());
    assert!(ensure_success("HTTP/1.1 204 No Content\r\n\r\n").is_ok());
    assert!(ensure_success("HTTP/1.1 299 Whatever").is_ok());
}

#[test]
fn ensure_success_refuses_the_rest() {
    let e = ensure_success("HTTP/1.1 404 Not Found\r\n\r\n").err().unwrap();
    assert_eq!(e.status_line, "HTTP/1.1 404 Not Found");
    assert_eq!(e.message(), "HTTP request failed: HTTP/1.1 404 Not Found");
    assert!(ensure_success("HTTP/1.1 300 Multiple\r\n").is_err());
    assert!(ensure_success("HTTP/1.1 199 Early\r\n").is_err());
    let e = ensure_success("").err().unwrap();
    assert_eq!(e.status_line, "");
    assert!(ensure_success("garbage").is_err());
    assert!(ensure_success("HTTP/1.1 99999 Big\r\n").is_err());
}

#[test]
fn status_codes_as_std_parses_them() {
    assert_eq!(response_status("HTTP/1.1 200 OK"), 200);
    assert_eq!(response_status("  HTTP/1.1\t+201  Created\n"), 201);
    assert_eq!(response_status("HTTP/1.1 -200 OK"), 0);
    assert_eq!(response_status("HTTP/1.1 0200 OK"), 200);
    assert_eq!(response_status("HTTP/1.1 65535 OK"), 65535);
    assert_eq!(response_status("HTTP/1.1 65536 OK"), 0);
    assert_eq!(response_status("HTTP/1.1 2x0 OK"), 0);
    assert_eq!(response_status("HTTP/1.1\n200 OK"), 0);
    assert_eq!(response_status("HTTP/1.1 200\r\n"), 200);
}

#[test]
fn bodies_follow_the_blank_line() {
    assert_eq!(response_body("HTTP/1.1 200 OK\r\nA: b\r\n\r\n[1,2]"), "[1,2]");
    assert_eq!(response_body("HTTP/1.1 200 OK\r\n\r\nx\r\n\r\ny"), "x\r\n\r\ny");
    assert_eq!(response_body("HTTP/1.1 200 OK\r\n"), "{}");
    assert_eq!(response_body(""), "{}");
}

#[test]
fn urls_split_into_host_and_path() {
    let (h, p) = split_url("http://127.0.0.1:7777/api/summary");
    assert_eq!(h, "127.0.0.1:7777");
    assert_eq!(p, "/api/summary");
    let (h, p) = split_url("localhost:80");
    assert_eq!(h, "localhost:80");
    assert_eq!(p, "/");
    let (h, p) = split_url("http://h/");
    assert_eq!(h, "h");
    assert_eq!(p, "/");
}

#[test]
fn request_texts() {
    let (h, r) = get_request("http://127.0.0.1:7777/api/devices");
    assert_eq!(h, "127.0.0.1:7777");
    assert_eq!(r, "GET /api/devices HTTP/1.1\r\nHost: 127.0.0.1:7777\r\nConnection: close\r\n\r\n");
    let (_, r) = post_request("http://127.0.0.1:7777/api/anomalies/3/resolve");
    assert_eq!(
        r,
        "POST /api/anomalies/3/resolve HTTP/1.1\r\nHost: 127.0.0.1:7777\r\nContent-Length: 0\r\nConnection: close\r\n\r\n"
    );
}

#[test]
fn macs_are_encoded_for_paths() {
    assert_eq!(encode_mac("AA:BB:CC:DD:EE:FF"), "AA%3ABB%3ACC%3ADD%3AEE%3AFF");
    assert_eq!(encode_mac("plain"), "plain");
}

#[test]
fn status_labels_of_the_device_table() {
    assert_eq!(status_label(2, true), "[!] ANOMALY");
    assert_eq!(status_label(1, false), "[!] ANOMALY");
    assert_eq!(status_label(0, true), "[ok] Normal");
    assert_eq!(status_label(0, false), "[..] Profiling");
}
