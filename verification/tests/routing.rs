use microrouter::request::Method;
use microrouter::response::not_found_response;
use microrouter::response::ok_response;
use microrouter::response::Response;
use microrouter::route::Route;
use microrouter::router::Dispatch;
use microrouter::router::Router;

#[test]
fn route_identifier_form() {
    let route = Route::new("/hello/world", Method::Get);
    assert_eq!(route.identifier(), "GET /hello/world".to_string());
    assert_eq!(route.path(), "/hello/world");
    let post = Route::new("/submit", Method::Post);
    assert_eq!(post.identifier(), "POST /submit".to_string());
}

#[test]
fn matched_route_and_wire_response() {
    let mut router: Router<u32> = Router::new(0);
    router.get("/hello/world");
    match router.dispatch("GET /hello/world HTTP/1.1\n\n".to_string()) {
        Dispatch::Matched(i, req) => {
            assert_eq!(i, 0);
            assert_eq!(req.identifier(), "GET /hello/world".to_string());
            let response = Response::raw_text("hi");
            assert_eq!(
                ok_response(&response.content),
                "HTTP/1.1 200 OK\r\nContent-Type:text/html;charset=utf-8\r\n\r\nhi\r\n\r\n"
                    .to_string()
            );
        }
        _ => panic!("expected a match"),
    }
}

#[test]
fn unregistered_identifier_is_not_found() {
    let mut router: Router<u32> = Router::new(0);
    router.get("/hello/world");
    match router.dispatch("GET /missing HTTP/1.1\n\n".to_string()) {
        Dispatch::NotFound(req) => {
            assert_eq!(req.identifier(), "GET /missing".to_string());
            assert_eq!(
                not_found_response(),
                "HTTP/1.1 404 Not Found\r\nContent-Type:text/html;charset=utf-8\r\n\r\n"
                    .to_string()
            );
        }
        _ => panic!("expected not-found"),
    }
}

#[test]
fn first_registered_route_wins() {
    let mut router: Router<u32> = Router::new(0);
    router.get("/dup");
    router.get("/dup");
    match router.dispatch("GET /dup HTTP/1.1\n\n".to_string()) {
        Dispatch::Matched(i, _) => assert_eq!(i, 0),
        _ => panic!("expected a match"),
    }
}

#[test]
fn method_distinguishes_routes() {
    let mut router: Router<u32> = Router::new(0);
    router.register(Method::Post, "/thing");
    router.register(Method::Get, "/thing");
    match router.dispatch("GET /thing HTTP/1.1\n\n".to_string()) {
        Dispatch::Matched(i, _) => assert_eq!(i, 1),
        _ => panic!("expected a match"),
    }
    match router.dispatch("POST /thing HTTP/1.1\n\n".to_string()) {
        Dispatch::Matched(i, _) => assert_eq!(i, 0),
        _ => panic!("expected a match"),
    }
}

#[test]
fn unparseable_input_closes_silently() {
    let router: Router<u32> = Router::new(0);
    assert!(matches!(
        router.dispatch(String::new()),
        Dispatch::ParseFailed
    ));
    assert!(matches!(
        router.dispatch("NONSENSE\n\n".to_string()),
        Dispatch::ParseFailed
    ));
}

#[test]
fn dispatch_bytes_drops_buffer_padding() {
    let mut router: Router<u32> = Router::new(0);
    router.get("/hello/world");
    let mut buf = b"GET /hello/world HTTP/1.1\n\n".to_vec();
    buf.resize(1024, 0u8);
    match router.dispatch_bytes(buf) {
        Dispatch::Matched(i, req) => {
            assert_eq!(i, 0);
            assert_eq!(req.identifier(), "GET /hello/world".to_string());
        }
        _ => panic!("expected a match"),
    }
}

#[test]
fn dispatch_bytes_rejects_invalid_utf8() {
    let router: Router<u32> = Router::new(0);
    let buf = vec![0xffu8, 0xfe, 0xfd];
    assert!(matches!(router.dispatch_bytes(buf), Dispatch::ParseFailed));
}

#[test]
fn app_state_is_what_the_router_was_built_over() {
    let router: Router<u32> = Router::new(17);
    assert_eq!(*router.app_state(), 17);
}
