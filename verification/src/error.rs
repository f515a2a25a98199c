//! What can go wrong with a clipboard.
use vstd::prelude::*;

verus! {

/// Why reading from a Wayland clipboard failed.
#[derive(Debug)]
pub enum PasteError {
    NoSeats,
    ClipboardEmpty,
    NoMimeType,
    WaylandConnection(String),
    MissingProtocol { name: String, version: u32 },
    Other(String),
}

/// The message of a failure, with what was printed to the standard streams
/// meanwhile, if that was captured.
#[derive(Debug)]
pub struct StandardizedError {
    pub inner: String,
    pub stdio: Option<String>,
}

#[derive(Debug)]
pub enum MyError {
    NoClipboards,
    WlcrsPaste(PasteError),
    X11Clipboard(String),
    TerminalClipboard(StandardizedError),
    /// A failure that is only reported, never told apart.
    Other(String),
}

pub type MyResult<T> = Result<T, MyError>;

} // verus!
