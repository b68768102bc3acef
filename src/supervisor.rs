use vstd::prelude::*;
use crate::decimal::{decimal_of, push_decimal};

verus! {

/// The port published when the worker does not announce one.
pub const DEFAULT_PORT: u16 = 3001;

/// The start of the statement that hands the port to the front-end: it sets
/// the global `PYTHON_SERVER_PORT`.
pub const SCRIPT_HEAD: &'static str = "window.PYTHON_SERVER_PORT = ";

/// The end of that statement.
pub const SCRIPT_TAIL: &'static str = ";";

/// The port handed to the front-end: the discovered one, else the default.
pub open spec fn effective_port_of(discovered: Option<u16>) -> u16 {
    match discovered {
        Some(p) => p,
        None => DEFAULT_PORT,
    }
}

/// The statement that makes `port` known to the front-end.
pub open spec fn injection_script(port: u16) -> Seq<char> {
    SCRIPT_HEAD@ + decimal_of(port as nat) + SCRIPT_TAIL@
}

/// Builds the statement that makes `port` known to the front-end.
pub fn port_script(port: u16) -> (r: String)
    ensures
        r@ == injection_script(port),
{
    let mut s = String::from_str(SCRIPT_HEAD);
    push_decimal(&mut s, port);
    s.append(SCRIPT_TAIL);
    s
}

/// Owns the worker for the rest of the program: holds the port to publish and
/// the worker's handle `H` until teardown. The one transition is from running
/// (handle present) to terminated (handle absent), and it is never undone.
pub struct Supervisor<H> {
    port: u16,
    published: bool,
    handle: Option<H>,
}

/// What one `shutdown` does: it hands out the handle that was held, if any,
/// and leaves none behind; nothing else changes.
pub open spec fn shutdown_post<H>(pre: Supervisor<H>, post: Supervisor<H>, r: Option<H>) -> bool {
    &&& r == pre.handle_spec()
    &&& post.handle_spec() is None
    &&& post.port_spec() == pre.port_spec()
    &&& post.published_spec() == pre.published_spec()
}

impl<H> Supervisor<H> {
    /// The effective port.
    pub closed spec fn port_spec(&self) -> u16 {
        self.port
    }

    /// Whether the port has been published.
    pub closed spec fn published_spec(&self) -> bool {
        self.published
    }

    /// The worker's handle, while it has not been torn down.
    pub closed spec fn handle_spec(&self) -> Option<H> {
        self.handle
    }

    /// Takes over a launched worker, with the port its handshake discovered.
    pub fn new(discovered: Option<u16>, handle: H) -> (r: Self)
        ensures
            r.port_spec() == effective_port_of(discovered),
            !r.published_spec(),
            r.handle_spec() == Some(handle),
    {
        let port = match discovered {
            Some(p) => p,
            None => DEFAULT_PORT,
        };
        Supervisor { port, published: false, handle: Some(handle) }
    }

    /// The port published to the front-end; fixed once the supervisor exists.
    pub fn effective_port(&self) -> (r: u16)
        ensures
            r == self.port_spec(),
    {
        self.port
    }

    /// Whether the worker has not been torn down yet.
    pub fn is_running(&self) -> (r: bool)
        ensures
            r == (self.handle_spec() is Some),
    {
        self.handle.is_some()
    }

    /// Whether the port has been published.
    pub fn is_published(&self) -> (r: bool)
        ensures
            r == self.published_spec(),
    {
        self.published
    }

    /// Gives the statement that publishes the port, the first time only;
    /// later calls give nothing, so the port is published exactly once.
    pub fn publish(&mut self) -> (r: Option<String>)
        ensures
            r is Some <==> !old(self).published_spec(),
            r is Some ==> r->0@ == injection_script(old(self).port_spec()),
            final(self).published_spec(),
            final(self).port_spec() == old(self).port_spec(),
            final(self).handle_spec() == old(self).handle_spec(),
    {
        if self.published {
            None
        } else {
            self.published = true;
            Some(port_script(self.port))
        }
    }

    /// Tears the worker down: takes the handle out, if one is held, for the
    /// caller to signal the process to terminate. With no handle left this
    /// does nothing, so a second shutdown is a no-op.
    pub fn shutdown(&mut self) -> (r: Option<H>)
        ensures
            shutdown_post(*old(self), *final(self), r),
    {
        self.handle.take()
    }
}

/// Shutting down twice in a row: the first call hands out the running
/// worker's handle and empties the supervisor, the second hands out nothing
/// and changes nothing.
pub proof fn lemma_shutdown_twice<H>(
    s0: Supervisor<H>,
    s1: Supervisor<H>,
    s2: Supervisor<H>,
    r1: Option<H>,
    r2: Option<H>,
)
    requires
        s0.handle_spec() is Some,
        shutdown_post(s0, s1, r1),
        shutdown_post(s1, s2, r2),
    ensures
        r1 == s0.handle_spec(),
        s1.handle_spec() is None,
        r2 is None,
        s2.handle_spec() is None,
        s2.port_spec() == s1.port_spec(),
        s2.published_spec() == s1.published_spec(),
{
}

/// However many shutdowns run one after another on a running worker, as they
/// do when each holds the lock on the supervisor, exactly one of them hands
/// out the handle, and so exactly one terminate signal is sent: the first.
pub proof fn lemma_single_teardown<H>(states: Seq<Supervisor<H>>, results: Seq<Option<H>>)
    requires
        results.len() >= 1,
        states.len() == results.len() + 1,
        states[0].handle_spec() is Some,
        forall|i: int|
            0 <= i < results.len() ==> shutdown_post(
                #[trigger] states[i],
                states[i + 1],
                results[i],
            ),
    ensures
        results[0] == states[0].handle_spec(),
        forall|i: int| 0 < i < results.len() ==> #[trigger] results[i] is None,
        forall|i: int, j: int|
            0 <= i < results.len() && 0 <= j < results.len() && results[i] is Some
                && results[j] is Some ==> i == j,
{
    assert(shutdown_post(states[0], states[1], results[0]));
    assert forall|i: int| 0 < i < results.len() implies #[trigger] results[i] is None by {
        assert(shutdown_post(states[i - 1], states[i], results[i - 1]));
        assert(shutdown_post(states[i], states[i + 1], results[i]));
    }
}

} // verus!
