use simple_file_transfer_v2::connection::{Action, Connection, Event};
use simple_file_transfer_v2::fs::browser::{CursorError, Request, Response};
use simple_file_transfer_v2::fs::{FSElement, FS};

struct Fixed(Vec<FSElement>);

impl FS for Fixed {
    type Error = ();

    fn list(&self, _path: &[u8]) -> Result<Vec<FSElement>, ()> {
        Ok(self.0.clone())
    }
}

fn element(name: &[u8]) -> FSElement {
    FSElement { name: name.to_vec(), created: None, modified: None, size: 0, is_file: true }
}

fn create(connection: &mut Connection<Fixed>) -> u16 {
    match connection.handle(Event::Request(Request::Create)) {
        Action::Reply(Response::Create(Ok(id))) => id,
        other => panic!("no cursor: {:?}", other),
    }
}

#[test]
fn open_connection_answers_requests() {
    let mut connection = Connection::new(2, Fixed(vec![element(b"b"), element(b"a")]));
    let id = create(&mut connection);
    assert_eq!(
        connection.handle(Event::Request(Request::Read { id })),
        Action::Reply(Response::Read(Ok(vec![element(b"a"), element(b"b")])))
    );
    assert_eq!(
        connection.handle(Event::Request(Request::Move { id, path: b"x".to_vec() })),
        Action::Reply(Response::Move(Ok(())))
    );
    assert_eq!(
        connection.handle(Event::Request(Request::GetLocation { id })),
        Action::Reply(Response::GetLocation(Ok(b"x".to_vec())))
    );
    let other = create(&mut connection);
    assert_ne!(other, id);
    assert_eq!(
        connection.handle(Event::Request(Request::Create)),
        Action::Reply(Response::Create(Err(CursorError::CursorLimitReached { limit: 2 })))
    );
    assert_eq!(
        connection.handle(Event::Request(Request::Destroy { id })),
        Action::Reply(Response::Destroy(Ok(())))
    );
}

#[test]
fn errors_of_the_browser_do_not_close_the_connection() {
    let mut connection = Connection::new(1, Fixed(vec![]));
    assert_eq!(
        connection.handle(Event::Request(Request::Read { id: 4 })),
        Action::Reply(Response::Read(Err(CursorError::UnknownCursor)))
    );
    let id = create(&mut connection);
    assert_eq!(
        connection.handle(Event::Request(Request::GetLocation { id })),
        Action::Reply(Response::GetLocation(Ok(vec![])))
    );
}

#[test]
fn anything_but_a_request_closes_the_connection() {
    for event in [Event::Failed, Event::Disconnected, Event::Shutdown] {
        let mut connection = Connection::new(4, Fixed(vec![]));
        let id = create(&mut connection);
        assert_eq!(connection.handle(event), Action::Close);
        assert_eq!(connection.handle(Event::Request(Request::GetLocation { id })), Action::Close);
        assert_eq!(connection.handle(Event::Request(Request::Create)), Action::Close);
        assert_eq!(connection.handle(Event::Shutdown), Action::Close);
    }
}
