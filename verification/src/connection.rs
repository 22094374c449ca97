//! One client's connection.
//!
//! A connection owns the cursors of its client. It answers one request at a
//! time for as long as it is open. The first thing that is not a request (a
//! failure of the transport, the peer going away, a shutdown) closes it for
//! good and discards its cursors.

use vstd::prelude::*;
use crate::fs::browser::{answers, Browser, CursorState, Request, Response};
use crate::fs::FS;

verus! {

/// What reaches a connection.
#[derive(Debug, PartialEq, Eq, Clone)]
pub enum Event {
    /// A frame arrived and held this request.
    Request(Request),
    /// The transport failed: a frame that does not decode, a response that
    /// cannot be sent, a reset.
    Failed,
    /// The peer went away.
    Disconnected,
    /// The server is shutting down.
    Shutdown,
}

/// What a connection does next.
#[derive(Debug, PartialEq, Eq)]
pub enum Action {
    /// Send this response and wait for the next event.
    Reply(Response),
    /// Close the connection.
    Close,
}

/// The cursors of one client and whether its connection is still open.
pub struct Connection<F> {
    browser: Browser<F>,
    open: bool,
}

impl<F: FS> Connection<F> {
    /// Whether the connection still answers requests.
    pub closed spec fn is_open(&self) -> bool {
        self.open
    }

    /// The live cursors of the client by id.
    pub closed spec fn cursors(&self) -> Map<u16, CursorState> {
        self.browser.cursors()
    }

    /// The greatest number of cursors that the client may have at once.
    pub closed spec fn limit(&self) -> u16 {
        self.browser.limit()
    }

    /// The listing capability that the connection reads through.
    pub closed spec fn capability(&self) -> F {
        self.browser.capability()
    }

    /// A connection is well formed when its cursors are finitely many and no
    /// more than its limit allows, and when it holds none once it is closed.
    pub closed spec fn wf(&self) -> bool {
        &&& self.browser.wf()
        &&& !self.open ==> self.browser.cursors() == Map::<u16, CursorState>::empty()
    }

    /// An open connection without cursors that allows `cursor_limit` of them.
    pub fn new(cursor_limit: u16, fs: F) -> (connection: Self)
        ensures
            connection.wf(),
            connection.is_open(),
            connection.limit() == cursor_limit,
            connection.capability() == fs,
            connection.cursors() == Map::<u16, CursorState>::empty(),
    {
        Connection { browser: Browser::new(cursor_limit, fs), open: true }
    }

    /// Takes an event and says what to do next.
    ///
    /// An open connection answers a request as the browser does and stays
    /// open. Any other event closes it and discards its cursors. A closed
    /// connection stays closed whatever reaches it.
    pub fn handle(&mut self, event: Event) -> (action: Action)
        requires
            old(self).wf(),
        ensures
            final(self).wf(),
            final(self).limit() == old(self).limit(),
            final(self).capability() == old(self).capability(),
            match event {
                Event::Request(request) if old(self).is_open() => {
                    &&& final(self).is_open()
                    &&& action matches Action::Reply(response)
                    &&& answers(
                        old(self).capability(),
                        old(self).cursors(),
                        old(self).limit(),
                        request,
                        response,
                        final(self).cursors(),
                    )
                },
                _ => {
                    &&& !final(self).is_open()
                    &&& action is Close
                    &&& final(self).cursors() == Map::<u16, CursorState>::empty()
                },
            },
    {
        if !self.open {
            return Action::Close;
        }
        match event {
            Event::Request(request) => Action::Reply(self.browser.process(request)),
            _ => {
                self.browser.destroy_all();
                self.open = false;
                Action::Close
            },
        }
    }
}

} // verus!
