use lib::http::{default_page, RequestKind};
use lib::web_server::{Reply, WebServer};

#[test]
fn new_server_is_idle() {
    let w: WebServer<u32> = WebServer::new(b"127.0.0.1".to_vec(), 4414, b"./".to_vec());
    assert_eq!(w.ip(), &b"127.0.0.1".to_vec());
    assert_eq!(w.port(), 4414);
    assert_eq!(w.working_directory(), &b"./".to_vec());
    assert_eq!(w.visitor_count(), 0);
}

#[test]
fn visits_are_counted() {
    let mut w: WebServer<u32> = WebServer::new(Vec::new(), 1, Vec::new());
    assert_eq!(w.visit(), 1);
    assert_eq!(w.visit(), 2);
    assert_eq!(w.visitor_count(), 2);
}

#[test]
fn smallest_file_is_served_first_with_its_connection() {
    let mut w: WebServer<u32> = WebServer::new(Vec::new(), 1, Vec::new());
    assert!(w.next_request().is_none());
    assert_eq!(w.enqueue_request(b"1.2.3.4:5".to_vec(), 10, b"./a".to_vec(), 102400), None);
    assert_eq!(w.enqueue_request(b"1.2.3.4:6".to_vec(), 20, b"./b".to_vec(), 10), None);
    assert_eq!(w.enqueue_request(b"1.2.3.4:7".to_vec(), 30, b"./c".to_vec(), 500), None);
    let (r, s) = w.next_request().unwrap();
    assert_eq!(r.peer_name, b"1.2.3.4:6".to_vec());
    assert_eq!((r.path, r.file_size), (b"./b".to_vec(), 10));
    assert_eq!(s, Some(20));
    let (r, s) = w.next_request().unwrap();
    assert_eq!(r.path, b"./c".to_vec());
    assert_eq!(s, Some(30));
    let (r, s) = w.next_request().unwrap();
    assert_eq!(r.path, b"./a".to_vec());
    assert_eq!(s, Some(10));
    assert!(w.next_request().is_none());
}

#[test]
fn equal_files_are_served_in_arrival_order() {
    let mut w: WebServer<u32> = WebServer::new(Vec::new(), 1, Vec::new());
    w.enqueue_request(b"x".to_vec(), 1, b"./x".to_vec(), 7);
    w.enqueue_request(b"y".to_vec(), 2, b"./y".to_vec(), 7);
    w.enqueue_request(b"z".to_vec(), 3, b"./z".to_vec(), 7);
    let order: Vec<Vec<u8>> = std::iter::from_fn(|| w.next_request().map(|(r, _)| r.path)).collect();
    assert_eq!(order, vec![b"./x".to_vec(), b"./y".to_vec(), b"./z".to_vec()]);
}

#[test]
fn same_peer_twice_keeps_the_later_connection() {
    let mut w: WebServer<u32> = WebServer::new(Vec::new(), 1, Vec::new());
    w.enqueue_request(b"p".to_vec(), 1, b"./a".to_vec(), 1);
    assert_eq!(w.enqueue_request(b"p".to_vec(), 2, b"./b".to_vec(), 2), Some(1));
    let (_, s) = w.next_request().unwrap();
    assert_eq!(s, Some(2));
    let (r, s) = w.next_request().unwrap();
    assert_eq!(r.path, b"./b".to_vec());
    assert_eq!(s, None);
}

#[test]
fn pages_are_answered_at_once_and_files_are_queued() {
    let mut w: WebServer<u32> = WebServer::new(Vec::new(), 1, Vec::new());
    w.visit();
    w.visit();
    match w.answer(b"a".to_vec(), 1, b"./".to_vec(), 0, RequestKind::DefaultPage) {
        Reply::Page(s, page) => {
            assert_eq!(s, 1);
            assert_eq!(page, default_page(2));
        }
        _ => panic!("expected the default page"),
    }
    match w.answer(b"b".to_vec(), 2, b"./p.shtml".to_vec(), 0, RequestKind::DynamicPage) {
        Reply::DynamicPage(s) => assert_eq!(s, 2),
        _ => panic!("expected a page"),
    }
    assert!(w.next_request().is_none());
    match w.answer(b"c".to_vec(), 3, b"./f".to_vec(), 9, RequestKind::StaticFile) {
        Reply::Queued(None) => {}
        _ => panic!("expected a queued request"),
    }
    let (r, s) = w.next_request().unwrap();
    assert_eq!((r.path, r.file_size, s), (b"./f".to_vec(), 9, Some(3)));
}
