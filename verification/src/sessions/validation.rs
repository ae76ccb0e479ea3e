//! Checks of session options before an agent starts.
use vstd::prelude::*;

use crate::agent::{AgentOptions, Options};
use crate::error::ClaudeError;

verus! {

broadcast use vstd::string::group_string_axioms;

/// What is wrong with session options, if anything.
///
/// Going on with the latest session needs a store that can list sessions,
/// unless the session is named. Checkpoints are on the local disk only, and
/// would part from a mirrored transcript.
pub open spec fn options_fault(o: Options) -> Option<Seq<char>> {
    match o.session_store {
        Some(caps) => if o.continue_conversation && o.resume is None && !caps.list_sessions {
            Some(
                "continue_conversation with session_store requires the store to implement list_sessions()"@,
            )
        } else if o.enable_file_checkpointing {
            Some(
                "session_store cannot be combined with enable_file_checkpointing (checkpoints are local-disk only and would diverge from the mirrored transcript)"@,
            )
        } else {
            None
        },
        None => None,
    }
}

/// Checks session options.
pub fn validate_session_store_options(options: &AgentOptions) -> (r: Result<(), ClaudeError>)
    ensures
        match r {
            Ok(_) => options_fault(options@) is None,
            Err(e) => options_fault(options@) matches Some(text) && e.is_invalid_config(text),
        },
{
    let caps = match &options.session_store {
        Some(caps) => caps,
        None => return Ok(()),
    };
    if options.continue_conversation && options.resume.is_none() && !caps.list_sessions {
        return Err(
            ClaudeError::InvalidConfig(
                "continue_conversation with session_store requires the store to implement list_sessions()".to_owned(),
            ),
        );
    }
    if options.enable_file_checkpointing {
        return Err(
            ClaudeError::InvalidConfig(
                "session_store cannot be combined with enable_file_checkpointing (checkpoints are local-disk only and would diverge from the mirrored transcript)".to_owned(),
            ),
        );
    }
    Ok(())
}

/// Without a store all options go.
pub proof fn law_no_store_is_always_valid(o: Options)
    requires
        o.session_store is None,
    ensures
        options_fault(o) is None,
{
}

/// A store that can list sessions is refused only for checkpoints.
pub proof fn law_listing_store_is_refused_for_checkpoints_only(o: Options)
    requires
        o.session_store matches Some(caps) && caps.list_sessions,
    ensures
        options_fault(o) is Some <==> o.enable_file_checkpointing,
{
}

/// Going on with the latest session of a store that cannot list sessions is
/// refused, also where there are checkpoints; a named session may be resumed
/// from it. With a store checkpoints are refused in any case.
pub proof fn law_refused_options(o: Options)
    requires
        o.session_store is Some,
    ensures
        o.continue_conversation && o.resume is None && !o.session_store->0.list_sessions
            ==> options_fault(o) == Some(
            "continue_conversation with session_store requires the store to implement list_sessions()"@,
        ),
        !(o.continue_conversation && o.resume is None && !o.session_store->0.list_sessions)
            && o.enable_file_checkpointing ==> options_fault(o) == Some(
            "session_store cannot be combined with enable_file_checkpointing (checkpoints are local-disk only and would diverge from the mirrored transcript)"@,
        ),
        !o.enable_file_checkpointing && (o.resume is Some || !o.continue_conversation)
            ==> options_fault(o) is None,
{
}

} // verus!
