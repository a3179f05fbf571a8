use saba_core::http::HttpClient;

#[test]
fn request_for_a_page() {
    let client = HttpClient::new();
    assert_eq!(
        client.request("example.com", "index.html"),
        "GET /index.html HTTP/1.1\nHost: example.com\nAccept: text/html\nConnection: close\n\n"
    );
}

#[test]
fn request_for_the_root() {
    assert_eq!(
        HttpClient::new().request("h", ""),
        "GET / HTTP/1.1\nHost: h\nAccept: text/html\nConnection: close\n\n"
    );
    assert_eq!(HttpClient::new().request("h", "").chars().count(), 60);
}

#[test]
fn clients_are_equal() {
    assert_eq!(HttpClient::new(), HttpClient::new());
}
