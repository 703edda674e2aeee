//! The server's configuration, its handle, and executors of connection tasks.
use vstd::prelude::*;
use std::sync::Arc;
use std::sync::atomic::AtomicBool;

verus! {

/// Default limit on the size of a request body, in bytes.
pub const DEFAULT_MAX_BODY_SIZE: usize = 4194304;

/// A handle to a running server, shared with the thread that runs it: whether it was asked to
/// stop, and whether it accepts connections.
#[derive(Clone)]
pub struct ServerHandle {
    is_closed: Arc<AtomicBool>,
    is_ready: Arc<AtomicBool>,
}

impl ServerHandle {
    /// A handle of a server that is neither stopped nor ready.
    pub fn new() -> (r: ServerHandle) {
        ServerHandle { is_closed: Arc::new(AtomicBool::new(false)), is_ready: Arc::new(AtomicBool::new(false)) }
    }

    /// Signals the server to stop accepting connections.
    pub fn shutdown(self) {
        self.is_closed.store(true, std::sync::atomic::Ordering::Relaxed);
    }

    /// Whether the server was asked to stop. Other threads may change it at any time, so nothing
    /// is known of the result.
    pub fn is_closed(&self) -> (r: bool) {
        self.is_closed.load(std::sync::atomic::Ordering::Relaxed)
    }

    /// Whether the server accepts connections. Other threads may change it at any time, so
    /// nothing is known of the result.
    pub fn is_ready(&self) -> (r: bool) {
        self.is_ready.load(std::sync::atomic::Ordering::Relaxed)
    }

    /// Records whether the server accepts connections.
    pub fn set_ready(&self, ready: bool) {
        self.is_ready.store(ready, std::sync::atomic::Ordering::Relaxed);
    }
}

/// Server configuration.
#[derive(Clone, Debug, PartialEq, Eq)]
pub struct Config {
    /// Whether to include the `Date` header in each response.
    pub include_date_header: bool,
    /// Max body size in bytes.
    pub max_body_size: Option<usize>,
    /// Whether to add connection information to the request extensions.
    pub include_conn_info: bool,
    /// Whether to add the server configuration to the request extensions.
    pub include_server_info: bool,
}

impl Default for Config {
    /// The `Date` header and the server information are included, connection information is
    /// not, and bodies are limited to [`DEFAULT_MAX_BODY_SIZE`] bytes.
    fn default() -> (r: Self)
        ensures
            r.include_date_header,
            r.max_body_size == Some(DEFAULT_MAX_BODY_SIZE),
            !r.include_conn_info,
            r.include_server_info,
    {
        Config {
            include_date_header: true,
            max_body_size: Some(DEFAULT_MAX_BODY_SIZE),
            include_conn_info: false,
            include_server_info: true,
        }
    }
}

/// Why an executor could not run a task.
#[derive(Debug, Clone, Copy, PartialEq, Eq, Structural)]
pub struct ExecuteError;

/// Runs the tasks of connections.
pub trait Executor {
    /// Runs a task.
    fn execute<F: FnOnce() + Send + 'static>(&self, f: F) -> Result<(), ExecuteError>
        requires
            f.requires(()),
    ;
}

/// An executor that runs each task in the calling thread, to its end.
#[derive(Debug, Clone, Copy)]
pub struct BlockingExecutor;

impl Executor for BlockingExecutor {
    fn execute<F: FnOnce() + Send + 'static>(&self, f: F) -> (r: Result<(), ExecuteError>)
        ensures
            r is Ok,
    {
        f();
        Ok(())
    }
}

} // verus!
