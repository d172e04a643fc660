//! The ways reading a message or choosing a proxy can fail.
use vstd::prelude::*;

verus! {

/// An error of the HTTP reader or of proxy selection.
#[derive(Debug)]
pub enum CuziError {
    /// A status line with fewer than three space-separated elements; holds
    /// the line.
    MalformedResponse(String),
    /// A request line without exactly three space-separated elements; holds
    /// the line.
    MalformedRequest(String),
    /// A protocol version other than `HTTP/1.1`; holds the version.
    UnsupportedVersion(String),
    /// The peer closed the connection before a start line came.
    ConnectionClosed,
    /// A header line without `:`.
    MissingColon,
    /// Headers were asked for while the message is not at its headers.
    NotAtHeaders,
    /// The body was asked for while the message is not at its body.
    NotAtBody,
    /// A `content-length` value that is not a decimal `usize`; holds it.
    InvalidContentLength(String),
    /// No proxy is configured for the request URI; holds the URI.
    NoProxyMatched(String),
}

} // verus!
