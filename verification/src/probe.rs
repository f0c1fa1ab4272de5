//! What the first request for a file says: how large the file is, and whether it can be fetched
//! in ranges.

use crate::text;
use crate::text_laws;
use vstd::prelude::*;

verus! {

pub const UNAUTHORIZED: u16 = 401;

pub const FORBIDDEN: u16 = 403;

pub const PARTIAL_CONTENT: u16 = 206;

/// What came of the request for the first byte of a file.
#[derive(Debug)]
pub enum ProbeReply {
    /// No answer came.
    Failed { error: String },
    Answered {
        status: u16,
        /// The error that the status stands for, where it stands for one.
        status_error: Option<String>,
        content_range: Option<String>,
        content_length: Option<u64>,
    },
}

/// The statuses that stand for an error: those of the client and those of the server.
pub open spec fn is_error_status(status: u16) -> bool {
    400 <= status <= 599
}

/// An answer comes with the text of an error exactly where its status stands for one.
pub open spec fn reply_ok(reply: ProbeReply) -> bool {
    reply matches ProbeReply::Answered { status, status_error, .. } ==> (status_error is Some
        <==> is_error_status(status))
}

/// The size at the end of a `Content-Range` header.
pub open spec fn range_total(content_range: Option<String>) -> Option<u64> {
    match content_range {
        Some(value) => text::parsed_u64(text::pieces(value@, '/').last()),
        None => None,
    }
}

/// The size of the file: from the `Content-Range` header, else as the listing of the repository
/// has it, else from the length of the answer.
pub open spec fn file_total(
    content_range: Option<String>,
    hinted: Option<u64>,
    content_length: Option<u64>,
) -> Option<u64> {
    if range_total(content_range) is Some {
        range_total(content_range)
    } else if hinted is Some {
        hinted
    } else {
        content_length
    }
}

/// What the answer means: the size of the file and whether it can be fetched in ranges, or the
/// text of an error.
pub open spec fn probe_result(reply: ProbeReply, hinted: Option<u64>) -> Result<
    (u64, bool),
    Seq<char>,
> {
    match reply {
        ProbeReply::Failed { error } => Err("size request failed: "@ + error@),
        ProbeReply::Answered { status, status_error, content_range, content_length } => {
            if status == UNAUTHORIZED || status == FORBIDDEN {
                Err("access denied; check the token and gated-model access"@)
            } else if is_error_status(status) {
                Err(status_error->0@)
            } else {
                match file_total(content_range, hinted, content_length) {
                    Some(total) => Ok((total, status == PARTIAL_CONTENT)),
                    None => Err("server did not report a file size"@),
                }
            }
        },
    }
}

/// Reads the size of a file, and whether it can be fetched in ranges, out of the answer to the
/// request for its first byte. `hinted` is the size in the listing of the repository.
pub fn probe(reply: ProbeReply, hinted: Option<u64>) -> (r: Result<(u64, bool), String>)
    requires
        reply_ok(reply),
    ensures
        match r {
            Ok(found) => probe_result(reply, hinted) == Ok::<(u64, bool), Seq<char>>(found),
            Err(error) => probe_result(reply, hinted) == Err::<(u64, bool), Seq<char>>(error@),
        },
{
    match reply {
        ProbeReply::Failed { error } => {
            let mut message = "size request failed: ".to_owned();
            message.append(error.as_str());
            Err(message)
        },
        ProbeReply::Answered { status, status_error, content_range, content_length } => {
            if status == UNAUTHORIZED || status == FORBIDDEN {
                return Err("access denied; check the token and gated-model access".to_owned());
            }
            if let Some(error) = status_error {
                return Err(error);
            }
            let reported: Option<u64> = match &content_range {
                Some(value) => text::parse_u64(text::last_piece(value.as_str(), '/').as_str()),
                None => None,
            };
            let total = match (reported, hinted, content_length) {
                (Some(total), _, _) => total,
                (None, Some(total), _) => total,
                (None, None, Some(total)) => total,
                (None, None, None) => {
                    return Err("server did not report a file size".to_owned());
                },
            };
            Ok((total, status == PARTIAL_CONTENT))
        },
    }
}

/// An answer whose status stands for an error is never taken for a file, whatever else it says.
pub proof fn law_error_status_is_refused(reply: ProbeReply, hinted: Option<u64>)
    ensures
        reply matches ProbeReply::Answered { status, .. } && is_error_status(status)
            ==> probe_result(reply, hinted) is Err,
{
}

/// A `Content-Range` header tells the size behind its last slash.
pub proof fn law_content_range_tells_the_size(value: String, front: Seq<char>, tail: Seq<char>, n: u64)
    requires
        !tail.contains('/'),
        value@ == front + seq!['/'] + tail || value@ == tail,
    ensures
        range_total(Some(value)) == text::parsed_u64(tail),
        tail == text::decimal(n as nat) ==> range_total(Some(value)) == Some(n),
        range_total(None) is None,
{
    text_laws::law_separators_part_pieces(front, tail, '/');
    text_laws::law_separators_part_pieces(tail, tail, '/');
    text_laws::law_decimal_is_read_back(n);
    text::law_join_of_pieces(front, '/');
    assert(text::pieces(value@, '/').last() == tail);
}

/// Where an answer is no error, the size comes from the `Content-Range` header if it tells one,
/// else from the listing, else from the length of the answer; without any of them the file cannot
/// be fetched. Ranges work exactly where the answer was a part of the file.
pub proof fn law_sources_of_the_size(
    status: u16,
    status_error: Option<String>,
    content_range: Option<String>,
    content_length: Option<u64>,
    hinted: Option<u64>,
)
    requires
        status < 400 || status > 599,
    ensures
        ({
            let reply = ProbeReply::Answered {
                status,
                status_error,
                content_range,
                content_length,
            };
            let found = probe_result(reply, hinted);
            let told = range_total(content_range);
            &&& told matches Some(n) ==> found == Ok::<(u64, bool), Seq<char>>((n, status == 206))
            &&& told is None && hinted is Some ==> found == Ok::<(u64, bool), Seq<char>>(
                (hinted->0, status == 206),
            )
            &&& told is None && hinted is None && content_length is Some ==> found == Ok::<
                (u64, bool),
                Seq<char>,
            >((content_length->0, status == 206))
            &&& told is None && hinted is None && content_length is None ==> found == Err::<
                (u64, bool),
                Seq<char>,
            >("server did not report a file size"@)
        }),
{
}

/// What is refused says why, whatever else the answer holds: a missing or insufficient token, the
/// error of the status, or the error of the request.
pub proof fn law_refusals_say_why(
    status: u16,
    status_error: String,
    content_range: Option<String>,
    content_length: Option<u64>,
    hinted: Option<u64>,
)
    requires
        400 <= status <= 599,
    ensures
        ({
            let reply = ProbeReply::Answered {
                status,
                status_error: Some(status_error),
                content_range,
                content_length,
            };
            probe_result(reply, hinted) == Err::<(u64, bool), Seq<char>>(
                if status == 401 || status == 403 {
                    "access denied; check the token and gated-model access"@
                } else {
                    status_error@
                },
            )
        }),
        probe_result(ProbeReply::Failed { error: status_error }, hinted) == Err::<
            (u64, bool),
            Seq<char>,
        >("size request failed: "@ + status_error@),
{
}

} // verus!
