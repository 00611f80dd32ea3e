use game_logic::client;
use game_logic::server;

#[test]
fn server_reads_in_arrival_order() {
    let mut q = server::MessagesToRead::new();
    q.push(1);
    q.push(2);
    q.push(3);
    assert_eq!(q.pop(), Some(1));
    q.push(4);
    assert_eq!(q.pop(), Some(2));
    assert_eq!(q.pop(), Some(3));
    assert_eq!(q.pop(), Some(4));
    assert_eq!(q.pop(), None);
}

#[test]
fn server_empty_read_queue_gives_nothing() {
    let mut q: server::MessagesToRead<u8> = server::MessagesToRead::default();
    assert_eq!(q.pop(), None);
}

#[test]
fn server_sends_everything_in_order_once() {
    let mut q = server::MessagesToSend::new();
    q.push("a");
    q.push("b");
    assert_eq!(q.take_all(), vec!["a", "b"]);
    assert_eq!(q.take_all(), Vec::<&str>::new());
}

#[test]
fn client_reads_only_the_newest_message() {
    let mut q = client::MessagesToRead::new();
    q.push(10);
    q.push(20);
    q.push(30);
    assert_eq!(q.pop(), Some(30));
    assert_eq!(q.pop(), None);
}

#[test]
fn client_read_after_push_gives_that_message() {
    let mut q = client::MessagesToRead::default();
    q.push(1);
    assert_eq!(q.pop(), Some(1));
    q.push(2);
    assert_eq!(q.pop(), Some(2));
}

#[test]
fn client_sends_everything_in_order_once() {
    let mut q = client::MessagesToSend::default();
    q.push(5);
    q.push(6);
    q.push(7);
    assert_eq!(q.take_all(), vec![5, 6, 7]);
    q.push(8);
    assert_eq!(q.take_all(), vec![8]);
}

#[test]
fn server_push_then_pop_on_empty_gives_it_back() {
    let mut q = server::MessagesToRead::new();
    q.push('x');
    assert_eq!(q.pop(), Some('x'));
    assert_eq!(q.pop(), None);
}
