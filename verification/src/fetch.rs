//! Judging the answer of a tile source.

use vstd::prelude::*;
use crate::text::{decimal, decimal_string, same_text};

verus! {

/// The only status with which a tile is accepted.
pub const STATUS_OK: u16 = 200;

/// The step at which the network failed.
#[derive(Copy, Clone, Debug, PartialEq, Eq, Structural)]
pub enum TransportStep {
    /// While the request was sent.
    Request,
    /// While the body of the answer was read.
    Body,
}

/// Why a tile could not be had. Every variant names the URL that was asked.
#[derive(Debug, PartialEq, Eq)]
pub enum FetchError {
    /// The network failed: the request did not reach the source, or the
    /// answer broke off.
    Transport { url: String, step: TransportStep, detail: String },
    /// The source answered with another status than 200.
    UpstreamStatus { url: String, status: u16 },
    /// The source answered with another content type than `image/png`, or
    /// with none.
    ContentType { url: String, content_type: String },
}

/// The content type that a response states: the empty text where it states
/// none.
pub open spec fn stated(content_type: Option<&str>) -> Seq<char> {
    match content_type {
        Some(t) => t@,
        None => Seq::<char>::empty(),
    }
}

impl FetchError {
    /// The URL that was asked.
    pub open spec fn url_text(&self) -> Seq<char> {
        match self {
            FetchError::Transport { url, .. } => url@,
            FetchError::UpstreamStatus { url, .. } => url@,
            FetchError::ContentType { url, .. } => url@,
        }
    }

    /// What went wrong, as a sentence.
    pub open spec fn message_text(&self) -> Seq<char> {
        match self {
            FetchError::Transport { url, step, detail } => (match step {
                TransportStep::Request => "Failed to send request to "@,
                TransportStep::Body => "Failed to read response body from "@,
            }) + url@ + ": "@ + detail@,
            FetchError::UpstreamStatus { url, status } => "Request to "@ + url@
                + " failed with status: "@ + decimal(*status as nat),
            FetchError::ContentType { url, content_type } => "Unexpected content type from "@
                + url@ + ": "@ + content_type@,
        }
    }

    /// The URL that was asked.
    pub fn url(&self) -> (u: &str)
        ensures
            u@ == self.url_text(),
    {
        match self {
            FetchError::Transport { url, .. } => url.as_str(),
            FetchError::UpstreamStatus { url, .. } => url.as_str(),
            FetchError::ContentType { url, .. } => url.as_str(),
        }
    }

    /// What went wrong, as a sentence.
    pub fn message(&self) -> (m: String)
        ensures
            m@ == self.message_text(),
    {
        match self {
            FetchError::Transport { url, step, detail } => {
                let mut m = match step {
                    TransportStep::Request => String::from_str("Failed to send request to "),
                    TransportStep::Body => String::from_str("Failed to read response body from "),
                };
                m.append(url.as_str());
                m.append(": ");
                m.append(detail.as_str());
                m
            },
            FetchError::UpstreamStatus { url, status } => {
                let mut m = String::from_str("Request to ");
                m.append(url.as_str());
                m.append(" failed with status: ");
                let code = decimal_string(*status as u64);
                m.append(code.as_str());
                m
            },
            FetchError::ContentType { url, content_type } => {
                let mut m = String::from_str("Unexpected content type from ");
                m.append(url.as_str());
                m.append(": ");
                m.append(content_type.as_str());
                m
            },
        }
    }
}

/// `out` is the verdict on a response with the given status and content
/// type to the request for `url`: accepted where the status is 200 and the
/// content type is `image/png`; turned away for its status where that is
/// not 200; else turned away for its content type.
pub open spec fn judged(
    url: Seq<char>,
    status: u16,
    content_type: Seq<char>,
    out: Result<(), FetchError>,
) -> bool {
    match out {
        Ok(_) => status == STATUS_OK && content_type == "image/png"@,
        Err(FetchError::UpstreamStatus { url: u, status: s }) => status != STATUS_OK && u@ == url
            && s == status,
        Err(FetchError::ContentType { url: u, content_type: t }) => status == STATUS_OK
            && content_type != "image/png"@ && u@ == url && t@ == content_type,
        Err(_) => false,
    }
}

/// Judges the head of a response to the request for `url`. The response is
/// accepted where its status is 200 and its content type is `image/png`.
/// The status is looked at first.
pub fn check_response(url: &str, status: u16, content_type: Option<&str>) -> (out: Result<
    (),
    FetchError,
>)
    ensures
        judged(url@, status, stated(content_type), out),
{
    if status != STATUS_OK {
        return Err(FetchError::UpstreamStatus { url: String::from_str(url), status });
    }
    let given: &str = match content_type {
        Some(t) => t,
        None => "",
    };
    proof {
        reveal_strlit("");
        assert(""@ =~= Seq::<char>::empty());
    }
    if !same_text(given, "image/png") {
        return Err(
            FetchError::ContentType {
                url: String::from_str(url),
                content_type: String::from_str(given),
            },
        );
    }
    Ok(())
}

} // verus!
