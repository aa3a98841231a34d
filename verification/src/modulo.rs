//! The data exchanged with the native library window, and the decisions
//! taken on the requests it makes.

use vstd::prelude::*;
use vstd::utf8::is_char_boundary;
use vstd::string::StringSliceAdditionalSpecFns;
use crate::text::{concat, decimal, owned, replace_all, replace_spec, u64_to_decimal};

verus! {

/// A snippet shown by the native library window.
#[derive(Debug, Clone, PartialEq, Eq)]
pub struct LibraryEntry {
    /// Opaque identifier handed back to the handlers on save and delete.
    pub id: String,
    /// Human readable name of the file the snippet is stored in.
    pub collection: String,
    pub trigger: String,
    pub replacement: String,
    pub label: String,
    /// Read-only entries can be browsed and searched but not modified.
    pub editable: bool,
}

/// The callbacks of the library window: `save` is invoked when the user
/// saves a snippet, `delete` when a snippet is deleted, and `set_startup`
/// when the "start at login" control is toggled (when `None`, the control
/// is hidden).
pub struct LibraryHandlers<S, D, T> {
    pub save: S,
    pub delete: D,
    pub set_startup: Option<T>,
}

/// What the library window shows.
pub struct LibraryOptions<S, D, T> {
    pub window_icon_path: Option<String>,
    /// Displayed to the user and opened by the "Open config folder" button.
    pub config_dir: String,
    /// Collection name shown for snippets that have not been saved yet.
    pub new_entry_collection: String,
    pub entries: Vec<LibraryEntry>,
    pub startup_enabled: bool,
    pub handlers: LibraryHandlers<S, D, T>,
}

/// The action code of a save request.
pub const LIBRARY_ACTION_SAVE: i32 = 1;

/// The action code of a delete request.
pub const LIBRARY_ACTION_DELETE: i32 = 2;

/// The action code of a request to change the "start at login" setting.
pub const LIBRARY_ACTION_SET_STARTUP: i32 = 3;

/// What the window asked for, decoded.
#[derive(Debug, Clone, PartialEq, Eq)]
pub enum LibraryRequest {
    Save { id: Option<String>, trigger: String, replacement: String, label: String },
    Delete { id: String },
    SetStartup { enabled: bool },
    /// The request cannot be served; the window is answered with this message.
    Rejected { message: String },
}

/// The decimal text of a signed number.
pub open spec fn signed_decimal(n: int) -> Seq<char> {
    if n < 0 {
        seq!['-'] + decimal((-n) as nat)
    } else {
        decimal(n as nat)
    }
}

/// The decimal text of an `i32`.
pub fn i32_to_decimal(n: i32) -> (res: String)
    ensures
        res@ == signed_decimal(n as int),
{
    if n < 0 {
        let magnitude: u64 = (-(n as i64)) as u64;
        let digits = u64_to_decimal(magnitude);
        let mut res = String::new();
        res.push('-');
        res.append(digits.as_str());
        res
    } else {
        u64_to_decimal(n as u64)
    }
}

/// The message given for an action code the window should not send.
pub open spec fn unknown_action_message(action: int) -> Seq<char> {
    "unknown library action: "@ + signed_decimal(action)
}

/// Decodes a request of the library window. A delete needs an id, and the
/// startup setting can only be changed where it is supported.
pub fn decode_action(
    action: i32,
    id: Option<String>,
    trigger: String,
    replacement: String,
    label: String,
    startup_enabled: i32,
    startup_supported: bool,
) -> (res: LibraryRequest)
    ensures
        action == LIBRARY_ACTION_SAVE ==> res == (LibraryRequest::Save {
            id,
            trigger,
            replacement,
            label,
        }),
        action == LIBRARY_ACTION_DELETE ==> match id {
            Some(i) => res == (LibraryRequest::Delete { id: i }),
            None => res matches LibraryRequest::Rejected { message } && message@
                == "missing snippet id"@,
        },
        action == LIBRARY_ACTION_SET_STARTUP ==> if startup_supported {
            res == (LibraryRequest::SetStartup { enabled: startup_enabled != 0 })
        } else {
            res matches LibraryRequest::Rejected { message } && message@
                == "startup control is not supported on this platform"@
        },
        action != LIBRARY_ACTION_SAVE && action != LIBRARY_ACTION_DELETE && action
            != LIBRARY_ACTION_SET_STARTUP ==> (res matches LibraryRequest::Rejected { message }
            && message@ == unknown_action_message(action as int)),
{
    if action == LIBRARY_ACTION_SAVE {
        LibraryRequest::Save { id, trigger, replacement, label }
    } else if action == LIBRARY_ACTION_DELETE {
        match id {
            Some(i) => LibraryRequest::Delete { id: i },
            None => LibraryRequest::Rejected { message: owned("missing snippet id") },
        }
    } else if action == LIBRARY_ACTION_SET_STARTUP {
        if startup_supported {
            LibraryRequest::SetStartup { enabled: startup_enabled != 0 }
        } else {
            LibraryRequest::Rejected {
                message: owned("startup control is not supported on this platform"),
            }
        }
    } else {
        let number = i32_to_decimal(action);
        LibraryRequest::Rejected {
            message: concat("unknown library action: ", number.as_str()),
        }
    }
}

/// The answer to a request whose handler has no message to give back.
pub fn unit_reply(result: Result<(), String>) -> (res: Result<String, String>)
    ensures
        match result {
            Ok(()) => res matches Ok(m) && m@.len() == 0,
            Err(e) => res == Err::<String, String>(e),
        },
{
    match result {
        Ok(()) => Ok(String::new()),
        Err(e) => Err(e),
    }
}

/// The message given when a handler panicked.
pub open spec fn internal_error_message() -> Seq<char> {
    "an internal error occurred while processing the request"@
}

/// The code and message returned to the window for the outcome of a
/// request (`None` when the handler panicked): code 0 for success, 1 for
/// failure.
pub fn action_outcome(outcome: Option<Result<String, String>>) -> (res: (i32, String))
    ensures
        match outcome {
            Some(Ok(m)) => res.0 == 0 && res.1 == m,
            Some(Err(m)) => res.0 == 1 && res.1 == m,
            None => res.0 == 1 && res.1@ == internal_error_message(),
        },
{
    match outcome {
        Some(Ok(message)) => (0, message),
        Some(Err(message)) => (1, message),
        None => (1, owned("an internal error occurred while processing the request")),
    }
}

/// Text without its NUL characters, which cannot cross the FFI boundary.
pub fn strip_nul(value: &str) -> (res: String)
    ensures
        res@ == replace_spec(value@, "\0"@, ""@),
{
    proof {
        reveal_strlit("\0");
    }
    replace_all(value, "\0", "")
}

/// The largest character boundary of `bytes` that is at most `e`.
pub open spec fn boundary_at_most(bytes: Seq<u8>, e: int) -> int
    decreases e,
{
    if e <= 0 {
        0
    } else if is_char_boundary(bytes, e) {
        e
    } else {
        boundary_at_most(bytes, e - 1)
    }
}

/// How many bytes of `message` fit in a buffer of `size` bytes that also
/// holds a terminating NUL, cut on a character boundary.
pub open spec fn written_len(message: &str, size: int) -> int {
    let bytes = message.spec_bytes();
    let limit = if bytes.len() < size - 1 {
        bytes.len() as int
    } else {
        size - 1
    };
    boundary_at_most(bytes, limit)
}

/// Law: the bytes written end on a character boundary of the message, and
/// no later boundary fits before the terminating NUL.
pub proof fn lemma_written_len_is_boundary(message: &str, size: int)
    requires
        size > 0,
    ensures
        ({
            let bytes = message.spec_bytes();
            let end = written_len(message, size);
            let limit = if bytes.len() < size - 1 {
                bytes.len() as int
            } else {
                size - 1
            };
            &&& 0 <= end <= limit
            &&& is_char_boundary(bytes, end)
            &&& forall|k: int| end < k <= limit ==> !is_char_boundary(bytes, k)
        }),
{
    let bytes = message.spec_bytes();
    vstd::utf8::encode_utf8_valid_utf8(message@);
    vstd::utf8::is_char_boundary_start_end_of_seq(bytes);
    let limit = if bytes.len() < size - 1 {
        bytes.len() as int
    } else {
        size - 1
    };
    lemma_boundary_at_most(bytes, limit);
}

proof fn lemma_boundary_at_most(bytes: Seq<u8>, e: int)
    requires
        e >= 0,
        vstd::utf8::valid_utf8(bytes),
        is_char_boundary(bytes, 0),
    ensures
        0 <= boundary_at_most(bytes, e) <= e,
        is_char_boundary(bytes, boundary_at_most(bytes, e)),
        forall|k: int| boundary_at_most(bytes, e) < k <= e ==> !is_char_boundary(bytes, k),
    decreases e,
{
    if e > 0 && !is_char_boundary(bytes, e) {
        lemma_boundary_at_most(bytes, e - 1);
    }
}

/// Copies `message` into the buffer provided by the native window,
/// truncating on a char boundary and always NUL-terminating. Nothing is
/// written when `result_size` is not positive.
pub fn write_result(result: &mut Vec<u8>, result_size: i32, message: &str)
    requires
        result_size <= old(result)@.len(),
    ensures
        result_size <= 0 ==> final(result)@ == old(result)@,
        result_size > 0 ==> ({
            let end = written_len(message, result_size as int);
            &&& 0 <= end < result_size
            &&& final(result)@ == message.spec_bytes().take(end) + seq![0u8] + old(result)@.skip(
                end + 1,
            )
        }),
{
    if result_size <= 0 {
        return;
    }
    let size = result_size as usize;
    let bytes = message.as_bytes();
    let ghost b = message.spec_bytes();
    proof {
        vstd::utf8::encode_utf8_valid_utf8(message@);
        vstd::utf8::is_char_boundary_start_end_of_seq(b);
    }
    let mut end = if bytes.len() < size - 1 { bytes.len() } else { size - 1 };
    assert(boundary_at_most(b, end as int) == written_len(message, result_size as int));
    while !message.is_char_boundary(end)
        invariant
            end <= b.len(),
            end < size,
            size as int == result_size,
            result_size <= result@.len(),
            vstd::utf8::valid_utf8(b),
            is_char_boundary(b, 0),
            b == message.spec_bytes(),
            boundary_at_most(b, end as int) == written_len(message, result_size as int),
        decreases end,
    {
        end = end - 1;
    }
    let ghost before = result@;
    let mut i: usize = 0;
    while i < end
        invariant
            i <= end,
            end < size <= before.len(),
            end <= b.len(),
            bytes@ == b,
            result@.len() == before.len(),
            forall|j: int| 0 <= j < i ==> result@[j] == b[j],
            forall|j: int| i <= j < result@.len() ==> result@[j] == before[j],
        decreases end - i,
    {
        result.set(i, bytes[i]);
        i = i + 1;
    }
    result.set(end, 0u8);
    assert(result@ =~= b.take(end as int) + seq![0u8] + before.skip(end + 1));
}

} // verus!
