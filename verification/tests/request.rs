use deckt::request::{Method, Request};

#[derive(Debug, Clone, Copy)]
struct TestReq {
    start: u32,
    count: u32,
}

#[test]
fn test_request_new() {
    Request::<TestReq>::new(&Method::Get, &"JNJS", None);
    Request::<TestReq>::new(
        &Method::Get,
        &"JNJS",
        Some(&TestReq {
            start: 10,
            count: 100,
        }),
    );
}

#[test]
fn test_request_builder() {
    Request::<TestReq>::builder()
        .url("hu")
        .method(&Method::Get)
        .query(None)
        .build();
}

#[test]
fn test_request_getters() {
    let method = Method::Get;
    let q = TestReq { start: 3, count: 4 };
    let request = Request::new(&method, "https://example.invalid/x", Some(&q));
    assert_eq!(request.method(), &Method::Get);
    assert_eq!(request.url(), "https://example.invalid/x");
    assert_eq!(request.query().unwrap().start, 3);
    assert_eq!(request.query().unwrap().count, 4);
}

#[test]
fn test_method_default() {
    assert_eq!(Method::default(), Method::Get);
}
