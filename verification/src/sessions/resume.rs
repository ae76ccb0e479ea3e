//! Resuming a session from a store.
//!
//! The entries of the session are written to a directory that is laid out like
//! the agent's own configuration directory, and the agent is started on it.
//! This module decides which session is resumed, what the files of the
//! directory hold, and which of a store's subkeys may become files.
use serde_json::{Map as JsonMap, Value};
use vstd::prelude::*;

use crate::agent::{env_set, env_with, AgentOptions, Options};
use crate::error::ClaudeError;
use crate::json::{
    distinct_keys, flag_field, get_flag, get_object, has_key, json, lemma_key_index, lookup,
    member_lists, members, object_field, object_value, parse, parse_bytes, parsed, parsed_bytes,
    print, printed, put, remove, swap_dropped, text_field, Json, Members,
};
use crate::sessions::import::metadata_entry;
use crate::sessions::key::{has_char, subpath_fault};
use crate::sessions::lite::{is_uuid, validate_uuid};
use crate::sessions::mirror::{MAX_PENDING_BYTES, MAX_PENDING_ENTRIES};
use crate::sessions::path::{
    file_name, file_name_of, is_under, is_within, join_path, joined_path, path_parts, piece_parts,
    with_file_name, with_name, Part,
};
use crate::sessions::sorting::{law_sorted_desc, sort_desc, sorted_desc, Ranked};
use crate::sessions::store::{
    listing_views, SessionStoreEntry, SessionStoreFlushMode, SessionStoreListEntry,
};
use crate::sessions::windows::{drive_of, find_drive, slash, slashed};
use crate::text::{
    concat, concat3, digits, digits_of, from_chars, nonempty_view, push_text, replaced, split,
    split_on, str_view, to_chars,
};

verus! {

broadcast use vstd::string::group_string_axioms;

// ---------------------------------------------------------------------------
// Which session
// ---------------------------------------------------------------------------

/// What is resumed.
#[derive(Debug)]
pub enum ResumePlan {
    /// Nothing from the store.
    Nothing,
    /// This session.
    Session(String),
    /// The latest session of the project.
    Latest,
}

/// The contents of a [`ResumePlan`].
pub ghost enum Plan {
    Nothing,
    Session(Seq<char>),
    Latest,
}

impl View for ResumePlan {
    type V = Plan;

    open spec fn view(&self) -> Plan {
        match self {
            ResumePlan::Nothing => Plan::Nothing,
            ResumePlan::Session(s) => Plan::Session(s@),
            ResumePlan::Latest => Plan::Latest,
        }
    }
}

/// What options resume. A named session wins over the latest one; its name
/// becomes part of a path, and has to be a UUID.
pub open spec fn resume_plan(o: Options) -> Plan {
    match o.session_store {
        Some(caps) => match o.resume {
            Some(id) => if is_uuid(id) {
                Plan::Session(id)
            } else {
                Plan::Nothing
            },
            None => if o.continue_conversation && caps.list_sessions {
                Plan::Latest
            } else {
                Plan::Nothing
            },
        },
        None => Plan::Nothing,
    }
}

/// What options resume.
pub fn plan_resume(options: &AgentOptions) -> (r: ResumePlan)
    ensures
        r@ == resume_plan(options@),
{
    let caps = match &options.session_store {
        Some(caps) => caps,
        None => return ResumePlan::Nothing,
    };
    match &options.resume {
        Some(id) => {
            if validate_uuid(id).is_some() {
                ResumePlan::Session(id.clone())
            } else {
                ResumePlan::Nothing
            }
        },
        None => {
            if options.continue_conversation && caps.list_sessions {
                ResumePlan::Latest
            } else {
                ResumePlan::Nothing
            }
        },
    }
}

/// Entries that are a session of the user: there are some, and the first is
/// not of a sidechain.
pub open spec fn is_resumable(entries: Option<Seq<Members>>) -> bool {
    match entries {
        Some(es) => es.len() > 0 && !flag_field(es[0], "isSidechain"@),
        None => false,
    }
}

impl Ranked for SessionStoreListEntry {
    open spec fn rank_of(&self) -> int {
        self.mtime as int
    }

    fn rank(&self) -> (r: i64) {
        self.mtime
    }
}

/// A listing, newest first.
pub open spec fn newest_listing(listing: Seq<(Seq<char>, i64)>) -> Seq<(Seq<char>, i64)> {
    sorted_desc(listing, |x: (Seq<char>, i64)| x.1 as int)
}

/// A search for the session to go on with: the listed sessions that were not
/// looked at yet, newest first.
#[derive(Debug)]
pub struct LatestSearch {
    order: Vec<SessionStoreListEntry>,
    at: usize,
}

impl View for LatestSearch {
    type V = Seq<(Seq<char>, i64)>;

    closed spec fn view(&self) -> Seq<(Seq<char>, i64)> {
        listing_views(self.order@).skip(self.at as int)
    }
}

impl LatestSearch {
    #[verifier::type_invariant]
    spec fn is_placed(self) -> bool {
        self.at <= self.order@.len()
    }

    /// A search among listed sessions.
    pub fn new(listing: Vec<SessionStoreListEntry>) -> (r: Self)
        ensures
            r@ == newest_listing(listing_views(listing@)),
    {
        let ghost s = listing@;
        let order = sort_desc(listing);
        proof {
            let view = |x: SessionStoreListEntry| (x.session_id@, x.mtime);
            let key = |x: SessionStoreListEntry| x.rank_of();
            let t = sorted_desc(s, key);
            crate::sessions::sorting::lemma_sorted_views(
                s,
                key,
                view,
                |x: (Seq<char>, i64)| x.1 as int,
            );
            assert(listing_views(t) =~= Seq::new(t.len(), |i: int| view(t[i])));
            assert(listing_views(s) =~= Seq::new(s.len(), |i: int| view(s[i])));
            assert(listing_views(t).skip(0) =~= listing_views(t));
        }
        LatestSearch { order, at: 0 }
    }

    /// The session to load next.
    pub fn candidate(&self) -> (r: Option<&str>)
        ensures
            match r {
                Some(id) => self@.len() > 0 && id@ == self@[0].0,
                None => self@.len() == 0,
            },
    {
        proof {
            use_type_invariant(self);
        }
        if self.at < self.order.len() {
            proof {
                assert(self@[0] == listing_views(self.order@)[self.at as int]);
            }
            Some(self.order[self.at].session_id.as_str())
        } else {
            None
        }
    }

    /// Tells whether the loaded entries of the candidate are to be resumed.
    ///
    /// If they are no session of the user, the search goes on with the next
    /// one. If they are, but the session's name is no UUID, the search is over
    /// without a session: the name would become part of a path.
    pub fn offer(&mut self, entries: Option<&Vec<SessionStoreEntry>>) -> (r: bool)
        requires
            old(self)@.len() > 0,
        ensures
            r == (is_resumable(entries_view(entries)) && is_uuid(old(self)@[0].0)),
            final(self)@ == if r {
                old(self)@
            } else if is_resumable(entries_view(entries)) {
                Seq::empty()
            } else {
                old(self)@.skip(1)
            },
            forall|loads: spec_fn(Seq<char>) -> Option<Seq<Members>>|
                loads(old(self)@[0].0) == entries_view(entries) ==> #[trigger] found_session(
                    old(self)@,
                    loads,
                ) == if r {
                    Some(old(self)@[0])
                } else {
                    found_session(final(self)@, loads)
                },
    {
        proof {
            use_type_invariant(&*self);
        }
        let ghost before = self@;
        let n: usize = self.order.len();
        proof {
            assert(before.len() == n - self.at);
            assert(before[0] == listing_views(self.order@)[self.at as int]);
        }
        if check_resumable(entries) {
            if validate_uuid(&self.order[self.at].session_id).is_some() {
                return true;
            }
            self.at = n;
            proof {
                assert(self@ =~= Seq::empty());
            }
            return false;
        }
        self.at = self.at + 1;
        proof {
            assert(self@ =~= before.skip(1));
        }
        false
    }
}

/// The contents of entries that may be missing.
pub open spec fn entries_view(entries: Option<&Vec<SessionStoreEntry>>) -> Option<Seq<Members>> {
    match entries {
        Some(list) => Some(member_lists(list@)),
        None => None,
    }
}

/// Tells whether entries are a session of the user.
pub fn check_resumable(entries: Option<&Vec<SessionStoreEntry>>) -> (r: bool)
    ensures
        r == is_resumable(entries_view(entries)),
{
    match entries {
        Some(list) => {
            if list.len() == 0 {
                return false;
            }
            proof {
                assert(member_lists(list@)[0] == members(list@[0]));
            }
            !get_flag(&list[0], "isSidechain")
        },
        None => false,
    }
}

/// The session that a search ends with, where `loads` tells what is loaded
/// for each session: the first session of the user, where its name is a UUID.
pub open spec fn found_session(
    order: Seq<(Seq<char>, i64)>,
    loads: spec_fn(Seq<char>) -> Option<Seq<Members>>,
) -> Option<(Seq<char>, i64)>
    decreases order.len(),
{
    if order.len() == 0 {
        None
    } else if is_resumable(loads(order[0].0)) {
        if is_uuid(order[0].0) {
            Some(order[0])
        } else {
            None
        }
    } else {
        found_session(order.skip(1), loads)
    }
}

/// Whether a listed session is one of the user's, and none of those is newer.
pub open spec fn is_newest(
    listing: Seq<(Seq<char>, i64)>,
    loads: spec_fn(Seq<char>) -> Option<Seq<Members>>,
    x: (Seq<char>, i64),
) -> bool {
    &&& listing.contains(x)
    &&& is_resumable(loads(x.0))
    &&& forall|y: (Seq<char>, i64)| #[trigger]
        listing.contains(y) && is_resumable(loads(y.0)) ==> y.1 <= x.1
}

/// What a search ends with is the first session of the user in its order.
proof fn lemma_found_first(
    order: Seq<(Seq<char>, i64)>,
    loads: spec_fn(Seq<char>) -> Option<Seq<Members>>,
) -> (at: int)
    ensures
        0 <= at <= order.len(),
        match found_session(order, loads) {
            Some(x) => at < order.len() && x == order[at] && is_resumable(loads(x.0)) && is_uuid(
                x.0,
            ),
            None => at < order.len() ==> is_resumable(loads(order[at].0)) && !is_uuid(order[at].0),
        },
        forall|i: int| 0 <= i < at ==> !is_resumable(loads((#[trigger] order[i]).0)),
    decreases order.len(),
{
    if order.len() == 0 {
        0
    } else if is_resumable(loads(order[0].0)) {
        0
    } else {
        let k = lemma_found_first(order.skip(1), loads);
        assert forall|i: int| 0 <= i < k + 1 implies !is_resumable(
            loads((#[trigger] order[i]).0),
        ) by {
            if i > 0 {
                assert(order.skip(1)[i - 1] == order[i]);
            }
        }
        k + 1
    }
}

/// A search ends with the newest session that is one of the user's, where its
/// name is a UUID. It ends with none only if no listed session is one of the
/// user's, or if the name of the newest that is one is no UUID.
pub proof fn law_latest_is_the_newest(
    listing: Seq<(Seq<char>, i64)>,
    loads: spec_fn(Seq<char>) -> Option<Seq<Members>>,
)
    ensures
        match found_session(newest_listing(listing), loads) {
            Some(x) => is_newest(listing, loads, x) && is_uuid(x.0),
            None => (forall|y: (Seq<char>, i64)| #[trigger]
                listing.contains(y) ==> !is_resumable(loads(y.0))) || exists|x: (Seq<char>, i64)|
                #[trigger] is_newest(listing, loads, x) && !is_uuid(x.0),
        },
{
    let key = |x: (Seq<char>, i64)| x.1 as int;
    let order = newest_listing(listing);
    law_sorted_desc(listing, key);
    let at = lemma_found_first(order, loads);
    order.to_multiset_ensures();
    listing.to_multiset_ensures();
    assert forall|y: (Seq<char>, i64)| #[trigger] listing.contains(y) implies order.contains(y) by {
        assert(listing.to_multiset().count(y) > 0);
    }
    if at < order.len() {
        let x = order[at];
        assert(order.contains(x));
        assert(order.to_multiset().count(x) > 0);
        assert forall|y: (Seq<char>, i64)| #[trigger]
            listing.contains(y) && is_resumable(loads(y.0)) implies y.1 <= x.1 by {
            assert(order.contains(y));
            let j = choose|j: int| 0 <= j < order.len() && order[j] == y;
            if j > at {
                assert(key(order[at]) >= key(order[j]));
            }
        }
        assert(is_newest(listing, loads, x));
    } else {
        assert forall|y: (Seq<char>, i64)| #[trigger] listing.contains(y) implies !is_resumable(
            loads(y.0),
        ) by {
            assert(order.contains(y));
            let j = choose|j: int| 0 <= j < order.len() && order[j] == y;
            assert(!is_resumable(loads(order[j].0)));
        }
    }
}

/// Where the session's files were written.
#[derive(Debug)]
pub struct MaterializedResume {
    /// A temporary directory laid out like the agent's configuration
    /// directory.
    pub config_dir: String,
    /// The session to resume.
    pub resume_session_id: String,
}

/// Options that start the agent on the written files: the session is named,
/// and the configuration directory is the temporary one.
pub fn apply_materialized_options(
    options: &AgentOptions,
    materialized: &MaterializedResume,
) -> (r: AgentOptions)
    ensures
        r@ == (Options {
            continue_conversation: false,
            resume: Some(materialized.resume_session_id@),
            env: env_with(options@.env, "CLAUDE_CONFIG_DIR"@, materialized.config_dir@),
            ..options@
        }),
{
    let env = env_set(&options.env, "CLAUDE_CONFIG_DIR", &materialized.config_dir);
    options.with_session(&materialized.resume_session_id, env)
}

/// Applied options resume the written session, whatever they resumed before.
pub proof fn law_applied_options_resume_the_session(
    o: Options,
    config_dir: Seq<char>,
    session_id: Seq<char>,
)
    requires
        o.session_store is Some,
        is_uuid(session_id),
    ensures
        resume_plan(
            Options {
                continue_conversation: false,
                resume: Some(session_id),
                env: env_with(o.env, "CLAUDE_CONFIG_DIR"@, config_dir),
                ..o
            },
        ) == Plan::Session(session_id),
        crate::agent::env_value(
            env_with(o.env, "CLAUDE_CONFIG_DIR"@, config_dir),
            "CLAUDE_CONFIG_DIR"@,
        ) == Some(config_dir),
{
    crate::agent::law_env_value_after_set(
        o.env,
        "CLAUDE_CONFIG_DIR"@,
        config_dir,
        "CLAUDE_CONFIG_DIR"@,
    );
}

/// How many entries and bytes may be pending in a mirror: none where every
/// frame is flushed at once.
pub fn pending_limits(mode: SessionStoreFlushMode) -> (r: (usize, usize))
    ensures
        r == (match mode {
            SessionStoreFlushMode::Eager => (0usize, 0usize),
            SessionStoreFlushMode::Batched => (MAX_PENDING_ENTRIES, MAX_PENDING_BYTES),
        }),
{
    match mode {
        SessionStoreFlushMode::Eager => (0, 0),
        SessionStoreFlushMode::Batched => (MAX_PENDING_ENTRIES, MAX_PENDING_BYTES),
    }
}

/// The directory of the transcripts that a mirror gets: the one in the
/// written files, or else the agent's own.
pub fn mirror_projects_dir(materialized: Option<&MaterializedResume>, projects_dir: &str) -> (r:
    String)
    ensures
        r@ == (match materialized {
            Some(m) => joined_path(m.config_dir@, "projects"@),
            None => projects_dir@,
        }),
{
    match materialized {
        Some(m) => join_path(&m.config_dir, "projects"),
        None => projects_dir.to_owned(),
    }
}

// ---------------------------------------------------------------------------
// What goes wrong
// ---------------------------------------------------------------------------

/// A call of a store, for messages.
#[derive(Debug)]
pub enum StoreCall<'a> {
    /// The load of a session.
    Load(&'a str),
    /// The load of a subagent's transcript.
    LoadSubpath(&'a str, &'a str),
    /// The listing of sessions.
    ListSessions,
    /// The listing of a session's subkeys.
    ListSubkeys(&'a str),
}

/// What messages call a call of a store.
pub open spec fn call_text(call: StoreCall) -> Seq<char> {
    match call {
        StoreCall::Load(id) => "SessionStore::load() for session "@ + id@,
        StoreCall::LoadSubpath(id, subpath) => "SessionStore::load() for session "@ + id@
            + " subpath "@ + subpath@,
        StoreCall::ListSessions => "SessionStore::list_sessions()"@,
        StoreCall::ListSubkeys(id) => "SessionStore::list_subkeys() for session "@ + id@,
    }
}

/// What messages call a call of a store.
pub fn call_label(call: StoreCall) -> (r: String)
    ensures
        r@ == call_text(call),
{
    match call {
        StoreCall::Load(id) => concat("SessionStore::load() for session ", id),
        StoreCall::LoadSubpath(id, subpath) => {
            let mut s = concat3("SessionStore::load() for session ", id, " subpath ");
            push_text(&mut s, subpath);
            s
        },
        StoreCall::ListSessions => "SessionStore::list_sessions()".to_owned(),
        StoreCall::ListSubkeys(id) => concat("SessionStore::list_subkeys() for session ", id),
    }
}

/// The error for a call that failed.
pub fn call_failed(call: StoreCall, error: &str) -> (r: ClaudeError)
    ensures
        r.is_transport_error(
            call_text(call) + " failed during resume materialization: "@ + error@,
        ),
{
    ClaudeError::TransportError(
        concat3(&call_label(call), " failed during resume materialization: ", error),
    )
}

/// The error for a call that took too long.
pub fn call_timed_out(call: StoreCall, timeout_ms: u64) -> (r: ClaudeError)
    ensures
        r.is_transport_error(
            call_text(call) + " timed out after "@ + digits(timeout_ms as nat)
                + "ms during resume materialization"@,
        ),
{
    let mut s = concat3(
        &call_label(call),
        " timed out after ",
        &from_chars(&digits_of(timeout_ms)),
    );
    push_text(&mut s, "ms during resume materialization");
    ClaudeError::TransportError(s)
}

/// Tells whether the removal of a directory is worth another try: it was
/// refused, or something in it is still in use.
pub fn is_retryable_errno(code: i32) -> (r: bool)
    ensures
        r == (code == 1 || code == 13 || code == 16 || code == 23 || code == 24 || code == 39),
{
    code == 1 || code == 13 || code == 16 || code == 23 || code == 24 || code == 39
}

// ---------------------------------------------------------------------------
// Configuration files
// ---------------------------------------------------------------------------

/// The configuration directory that a caller names, in the options or else in
/// the environment. An empty name is none.
pub open spec fn named_config_dir(
    option: Option<Seq<char>>,
    environment: Option<Seq<char>>,
) -> Option<Seq<char>> {
    nonempty_view(
        match option {
            Some(x) => Some(x),
            None => environment,
        },
    )
}

/// The configuration directory that a caller names.
pub fn caller_config_dir<'a>(option: Option<&'a str>, environment: Option<&'a str>) -> (r: Option<
    &'a str,
>)
    ensures
        str_view(r) == named_config_dir(str_view(option), str_view(environment)),
{
    let named = match option {
        Some(x) => Some(x),
        None => environment,
    };
    match named {
        Some(x) => {
            if x.is_empty() {
                None
            } else {
                Some(x)
            }
        },
        None => None,
    }
}

/// The home directory: the current one where the environment names none.
pub open spec fn home_or_here(home: Option<Seq<char>>, profile: Option<Seq<char>>) -> Seq<char> {
    match home {
        Some(h) => h,
        None => match profile {
            Some(p) => p,
            None => "."@,
        },
    }
}

/// The name of the agent's main configuration file.
pub open spec fn main_config_name(program: Seq<char>) -> Seq<char> {
    "."@ + program + ".json"@
}

/// Where the caller's configuration is.
#[derive(Debug)]
pub struct ConfigSources {
    /// The directory with the credentials and the settings.
    pub config_dir: String,
    /// The agent's main configuration file.
    pub claude_json: String,
}

/// Where the caller's configuration is: in a named directory, or else in the
/// hidden one of the agent's program in the home directory. The main
/// configuration file stands in a named directory, but beside the default one.
pub fn config_sources(
    named: Option<&str>,
    home: Option<&str>,
    profile: Option<&str>,
    program: &str,
) -> (r: ConfigSources)
    ensures
        match named {
            Some(dir) => r.config_dir@ == dir@ && r.claude_json@ == joined_path(
                dir@,
                main_config_name(program@),
            ),
            None => r.config_dir@ == joined_path(
                home_or_here(str_view(home), str_view(profile)),
                "."@ + program@,
            ) && r.claude_json@ == joined_path(
                home_or_here(str_view(home), str_view(profile)),
                main_config_name(program@),
            ),
        },
{
    let hidden = concat(".", program);
    let main_config = concat(&hidden, ".json");
    match named {
        Some(dir) => ConfigSources {
            config_dir: dir.to_owned(),
            claude_json: join_path(dir, &main_config),
        },
        None => {
            let base: &str = match home {
                Some(h) => h,
                None => match profile {
                    Some(p) => p,
                    None => ".",
                },
            };
            ConfigSources {
                config_dir: join_path(base, &hidden),
                claude_json: join_path(base, &main_config),
            }
        },
    }
}

/// Neither the options nor the environment give a variable a value.
pub fn is_unset(option: Option<&str>, environment: Option<&str>) -> (r: bool)
    ensures
        r == (nonempty_view(str_view(option)) is None && nonempty_view(
            str_view(environment),
        ) is None),
{
    let a = match option {
        Some(x) => !x.is_empty(),
        None => false,
    };
    let b = match environment {
        Some(x) => !x.is_empty(),
        None => false,
    };
    !a && !b
}

/// Settings as they are copied: without the declarations of plugins, which
/// the temporary directory lacks, and without the configuration directory
/// that they would set.
pub open spec fn resume_settings(m: Members) -> Members {
    let a = swap_dropped(swap_dropped(m, "enabledPlugins"@), "extraKnownMarketplaces"@);
    match object_field(a, "env"@) {
        Some(env) => if has_key(env, "CLAUDE_CONFIG_DIR"@) {
            put(a, "env"@, Json::Object(swap_dropped(env, "CLAUDE_CONFIG_DIR"@)))
        } else {
            a
        },
        None => a,
    }
}

/// Something in settings is not copied.
pub open spec fn has_stripped(m: Members) -> bool {
    ||| has_key(m, "enabledPlugins"@)
    ||| has_key(swap_dropped(m, "enabledPlugins"@), "extraKnownMarketplaces"@)
    ||| object_field(
        swap_dropped(swap_dropped(m, "enabledPlugins"@), "extraKnownMarketplaces"@),
        "env"@,
    ) matches Some(env) && has_key(env, "CLAUDE_CONFIG_DIR"@)
}

/// A file without a byte order mark.
pub open spec fn without_mark(bytes: Seq<u8>) -> Seq<u8> {
    if bytes.len() >= 3 && bytes[0] == 0xEF && bytes[1] == 0xBB && bytes[2] == 0xBF {
        bytes.skip(3)
    } else {
        bytes
    }
}

/// A settings file as it is copied. One that holds no object, or nothing that
/// is to be left out, is copied as it is.
pub open spec fn copied_settings(content: Seq<u8>) -> Seq<u8> {
    settings_from(content, parsed_bytes(without_mark(content)))
}

/// A settings file with this value as it is copied.
pub open spec fn settings_from(content: Seq<u8>, value: Option<Json>) -> Seq<u8> {
    match value {
        Some(Json::Object(m)) => if has_stripped(m) {
            vstd::utf8::encode_utf8(printed(Json::Object(resume_settings(m))))
        } else {
            content
        },
        _ => content,
    }
}

/// Strips settings of what is not copied. Tells whether there was any.
pub fn strip_settings(settings: &JsonMap<String, Value>) -> (r: (bool, JsonMap<String, Value>))
    ensures
        r.0 == has_stripped(members(*settings)),
        members(r.1) == resume_settings(members(*settings)),
{
    let mut m = settings.clone();
    let mut stripped = false;
    if remove(&mut m, "enabledPlugins").is_some() {
        stripped = true;
    }
    if remove(&mut m, "extraKnownMarketplaces").is_some() {
        stripped = true;
    }
    let nested = match get_object(&m, "env") {
        Some(env) => Some(env.clone()),
        None => None,
    };
    match nested {
        Some(mut env) => {
            if remove(&mut env, "CLAUDE_CONFIG_DIR").is_some() {
                stripped = true;
                let _ = m.insert("env".to_owned(), object_value(env));
            }
        },
        None => {},
    }
    (stripped, m)
}

/// A settings file as it is copied, given the value that was read from it.
pub fn strip_settings_with(content: &[u8], value: Option<Value>) -> (r: Vec<u8>)
    ensures
        r@ == settings_from(content@, crate::json::json_view(value)),
{
    let settings = match &value {
        Some(v) => v.as_object(),
        None => None,
    };
    match settings {
        Some(m) => {
            let (stripped, kept) = strip_settings(m);
            if stripped {
                let text = print(&object_value(kept));
                return vstd::slice::slice_to_vec(text.as_str().as_bytes());
            }
        },
        None => {},
    }
    vstd::slice::slice_to_vec(content)
}

/// A settings file as it is copied.
pub fn strip_settings_for_resume(content: &[u8]) -> (r: Vec<u8>)
    ensures
        r@ == copied_settings(content@),
        vstd::utf8::valid_utf8(without_mark(content@)) ==> r@ == settings_from(
            content@,
            parsed(vstd::utf8::decode_utf8(without_mark(content@))),
        ),
{
    let n: usize = content.len();
    if n >= 3 && content[0] == 0xEF && content[1] == 0xBB && content[2] == 0xBF {
        let rest = vstd::slice::slice_subrange(content, 3, n);
        proof {
            assert(rest@ =~= content@.skip(3));
        }
        return strip_settings_with(content, parse_bytes(rest));
    }
    strip_settings_with(content, parse_bytes(content))
}

/// Copied settings hold nothing that is to be left out, and are otherwise the
/// same.
pub proof fn law_copied_settings(m: Members, k: Seq<char>)
    requires
        distinct_keys(m),
        object_field(m, "env"@) matches Some(env) ==> distinct_keys(env),
    ensures
        !has_key(resume_settings(m), "enabledPlugins"@),
        !has_key(resume_settings(m), "extraKnownMarketplaces"@),
        object_field(resume_settings(m), "env"@) matches Some(env) ==> !has_key(
            env,
            "CLAUDE_CONFIG_DIR"@,
        ),
        k != "enabledPlugins"@ && k != "extraKnownMarketplaces"@ && k != "env"@ ==> lookup(
            resume_settings(m),
            k,
        ) == lookup(m, k),
{
    let a = swap_dropped(m, "enabledPlugins"@);
    let b = swap_dropped(a, "extraKnownMarketplaces"@);
    reveal_strlit("enabledPlugins");
    reveal_strlit("extraKnownMarketplaces");
    reveal_strlit("env");
    assert("enabledPlugins"@.len() == 14);
    assert("extraKnownMarketplaces"@.len() == 22);
    assert("env"@.len() == 3);
    crate::json::law_lookup_after_drop(m, "enabledPlugins"@, k);
    crate::json::law_lookup_after_drop(m, "enabledPlugins"@, "env"@);
    crate::json::law_lookup_after_drop(a, "extraKnownMarketplaces"@, k);
    crate::json::law_lookup_after_drop(a, "extraKnownMarketplaces"@, "env"@);
    crate::json::law_lookup_after_drop(a, "extraKnownMarketplaces"@, "enabledPlugins"@);
    assert(lookup(b, "env"@) == lookup(m, "env"@));
    match object_field(b, "env"@) {
        Some(env) => {
            if has_key(env, "CLAUDE_CONFIG_DIR"@) {
                let kept = swap_dropped(env, "CLAUDE_CONFIG_DIR"@);
                crate::json::law_lookup_after_drop(env, "CLAUDE_CONFIG_DIR"@, k);
                let v = Json::Object(kept);
                crate::json::law_lookup_after_put(b, "env"@, v, k);
                crate::json::law_lookup_after_put(b, "env"@, v, "enabledPlugins"@);
                crate::json::law_lookup_after_put(b, "env"@, v, "extraKnownMarketplaces"@);
            }
        },
        None => {},
    }
}

/// Credentials without the token that renews them. An agent that renewed them
/// would leave the caller with revoked ones.
pub open spec fn redacted(m: Members) -> Members {
    match object_field(m, "claudeAiOauth"@) {
        Some(oauth) => put(
            m,
            "claudeAiOauth"@,
            Json::Object(swap_dropped(oauth, "refreshToken"@)),
        ),
        None => m,
    }
}

/// Credentials with this value as they are copied.
pub open spec fn credentials_from(text: Seq<char>, value: Option<Json>) -> Seq<char> {
    match value {
        Some(Json::Object(m)) => printed(Json::Object(redacted(m))),
        Some(j) => printed(j),
        None => text,
    }
}

/// Credentials without the token that renews them.
pub fn redact(credentials: &JsonMap<String, Value>) -> (r: JsonMap<String, Value>)
    ensures
        members(r) == redacted(members(*credentials)),
{
    let mut m = credentials.clone();
    let nested = match get_object(credentials, "claudeAiOauth") {
        Some(oauth) => Some(oauth.clone()),
        None => None,
    };
    match nested {
        Some(mut oauth) => {
            let _ = remove(&mut oauth, "refreshToken");
            let _ = m.insert("claudeAiOauth".to_owned(), object_value(oauth));
        },
        None => {},
    }
    m
}

/// Credentials as they are copied, given the value that was read from them.
pub fn redact_credentials_with(text: &str, value: Option<Value>) -> (r: String)
    ensures
        r@ == credentials_from(text@, crate::json::json_view(value)),
{
    match value {
        Some(v) => match v.as_object() {
            Some(m) => print(&object_value(redact(m))),
            None => print(&v),
        },
        None => text.to_owned(),
    }
}

/// Credentials as they are copied. A text that is no JSON text is copied as it
/// is.
pub fn redact_credentials(text: &str) -> (r: String)
    ensures
        r@ == credentials_from(text@, parsed(text@)),
{
    redact_credentials_with(text, parse(text))
}

/// Copied credentials hold no token that renews them, and are otherwise the
/// same.
pub proof fn law_redacted_credentials(m: Members, k: Seq<char>, field: Seq<char>)
    requires
        distinct_keys(m),
        object_field(m, "claudeAiOauth"@) matches Some(oauth) ==> distinct_keys(oauth),
    ensures
        k != "claudeAiOauth"@ ==> lookup(redacted(m), k) == lookup(m, k),
        match (object_field(m, "claudeAiOauth"@), object_field(redacted(m), "claudeAiOauth"@)) {
            (Some(was), Some(is)) => lookup(is, "refreshToken"@) is None && (field
                != "refreshToken"@ ==> lookup(is, field) == lookup(was, field)),
            (None, None) => true,
            _ => false,
        },
{
    match object_field(m, "claudeAiOauth"@) {
        Some(oauth) => {
            let v = Json::Object(swap_dropped(oauth, "refreshToken"@));
            crate::json::law_lookup_after_put(m, "claudeAiOauth"@, v, k);
            crate::json::law_lookup_after_drop(oauth, "refreshToken"@, field);
        },
        None => {},
    }
}

// ---------------------------------------------------------------------------
// Subagents
// ---------------------------------------------------------------------------

/// The parts of a subpath. Both slashes part them.
pub open spec fn subpath_parts(s: Seq<char>) -> Seq<Seq<char>> {
    split_on(slashed(s), '/')
}

/// A subpath that names a place below the session's directory on any system:
/// it is relative, has no drive and no NUL, and no part of it is `.` or `..`.
pub open spec fn is_plain_subpath(s: Seq<char>) -> bool {
    &&& s.len() > 0
    &&& s[0] != '/' && s[0] != '\\'
    &&& drive_of(s) is None
    &&& !s.contains('\0')
    &&& !subpath_parts(s).contains("."@) && !subpath_parts(s).contains(".."@)
}

/// Tells whether a subpath names a place below the session's directory.
pub fn check_plain_subpath(subpath: &str) -> (r: bool)
    ensures
        r == is_plain_subpath(subpath@),
{
    let cs = to_chars(subpath);
    if cs.len() == 0 || cs[0] == '/' || cs[0] == '\\' {
        return false;
    }
    if find_drive(subpath).is_some() {
        return false;
    }
    if has_char(subpath, '\0') {
        return false;
    }
    let parts = split(&slash(subpath), '/');
    !crate::sessions::transcript::list_has(&parts, ".")
        && !crate::sessions::transcript::list_has(&parts, "..")
}

/// Tells whether a subkey of a store may become a file. The store is not
/// trusted: the file has to stand below the session's directory by its name,
/// and also where links on the disk lead, which `resolved_target` and
/// `resolved_root` tell.
pub fn is_safe_subpath(subpath: &str, resolved_target: &str, resolved_root: &str) -> (r: bool)
    ensures
        r == (is_plain_subpath(subpath@) && is_under(resolved_target@, resolved_root@)),
{
    check_plain_subpath(subpath) && is_within(resolved_target, resolved_root)
}

/// A part of a path that leads upward is a piece between slashes.
proof fn lemma_parent_part(pieces: Seq<Seq<char>>)
    requires
        piece_parts(pieces).contains(Part::Parent),
    ensures
        pieces.contains(seq!['.', '.']),
    decreases pieces.len(),
{
    if pieces.len() > 0 {
        let front = pieces.drop_last();
        let before = piece_parts(front);
        let k = choose|k: int|
            0 <= k < piece_parts(pieces).len() && piece_parts(pieces)[k] == Part::Parent;
        if before.contains(Part::Parent) {
            lemma_parent_part(front);
            let j = choose|j: int| 0 <= j < front.len() && front[j] == seq!['.', '.'];
            assert(pieces[j] == front[j]);
        } else {
            if k < before.len() {
                assert(before[k] == piece_parts(pieces)[k]);
            }
            assert(pieces[pieces.len() - 1] == seq!['.', '.']);
        }
    }
}

/// The pieces between slashes of a text are met again after more characters
/// became slashes, if they hold none of those.
proof fn lemma_piece_stays(s: Seq<char>, piece: Seq<char>)
    requires
        split_on(s, '/').contains(piece),
        !piece.contains('\\'),
    ensures
        subpath_parts(s).contains(piece),
    decreases s.len(),
{
    let t = replaced(s, '\\', '/');
    lemma_pieces(s);
    if s.len() == 0 {
        assert(t =~= s);
    } else {
        let front = s.drop_last();
        let a = split_on(front, '/');
        let b = split_on(s, '/');
        let c = subpath_parts(front);
        let d = subpath_parts(s);
        assert(t.drop_last() =~= replaced(front, '\\', '/'));
        lemma_pieces(front);
        let k = choose|k: int| 0 <= k < b.len() && b[k] == piece;
        if s.last() == '/' {
            if k < a.len() {
                assert(a[k] == piece);
                lemma_piece_stays(front, piece);
                let j = choose|j: int| 0 <= j < c.len() && c[j] == piece;
                assert(d[j] == piece);
            } else {
                assert(d[d.len() - 1] =~= piece);
            }
        } else if k < a.len() - 1 {
            assert(a[k] == piece);
            lemma_inner_piece(front, k);
            let j = choose|j: int| 0 <= j < c.len() - 1 && c[j] == piece;
            if s.last() == '\\' {
                assert(d[j] == piece);
            } else {
                assert(d[j] == piece);
            }
        } else {
            assert(piece == a.last().push(s.last()));
            assert(piece[piece.len() - 1] == s.last());
            assert(s.last() != '\\');
            assert(!a.last().contains('\\')) by {
                if a.last().contains('\\') {
                    let i = choose|i: int| 0 <= i < a.last().len() && a.last()[i] == '\\';
                    assert(piece[i] == '\\');
                }
            }
            lemma_last_piece_stays(front);
            assert(d.last() == c.last().push(s.last()));
            assert(d[d.len() - 1] == piece);
        }
    }
}

/// There is always a piece.
proof fn lemma_pieces(s: Seq<char>)
    ensures
        split_on(s, '/').len() > 0,
        subpath_parts(s).len() > 0,
{
    crate::text::law_join_undoes_split(s, '/');
    crate::text::law_join_undoes_split(replaced(s, '\\', '/'), '/');
}

/// The last piece stays the last, if it holds no backslash.
proof fn lemma_last_piece_stays(s: Seq<char>)
    requires
        !split_on(s, '/').last().contains('\\'),
    ensures
        subpath_parts(s).last() == split_on(s, '/').last(),
    decreases s.len(),
{
    let t = replaced(s, '\\', '/');
    lemma_pieces(s);
    if s.len() == 0 {
        assert(t =~= s);
    } else {
        let front = s.drop_last();
        lemma_pieces(front);
        assert(t.drop_last() =~= replaced(front, '\\', '/'));
        let a = split_on(front, '/').last();
        if s.last() != '/' {
            let now = a.push(s.last());
            assert(split_on(s, '/').last() == now);
            assert(now[now.len() - 1] == s.last());
            assert(s.last() != '\\');
            assert(!a.contains('\\')) by {
                if a.contains('\\') {
                    let i = choose|i: int| 0 <= i < a.len() && a[i] == '\\';
                    assert(now[i] == '\\');
                }
            }
            lemma_last_piece_stays(front);
        }
    }
}

/// A piece that is not the last stays, and not as the last, if it holds no
/// backslash.
proof fn lemma_inner_piece(s: Seq<char>, k: int)
    requires
        0 <= k < split_on(s, '/').len() - 1,
        !split_on(s, '/')[k].contains('\\'),
    ensures
        exists|j: int|
            0 <= j < subpath_parts(s).len() - 1 && #[trigger] subpath_parts(s)[j] == split_on(
                s,
                '/',
            )[k],
    decreases s.len(),
{
    let t = replaced(s, '\\', '/');
    lemma_pieces(s);
    if s.len() > 0 {
        let front = s.drop_last();
        lemma_pieces(front);
        assert(t.drop_last() =~= replaced(front, '\\', '/'));
        let a = split_on(front, '/');
        let b = split_on(s, '/');
        let c = subpath_parts(front);
        let d = subpath_parts(s);
        assert(b[k] == a[k]);
        if k < a.len() - 1 {
            lemma_inner_piece(front, k);
            let j = choose|j: int| 0 <= j < c.len() - 1 && #[trigger] c[j] == a[k];
            assert(d[j] == b[k]);
        } else {
            lemma_last_piece_stays(front);
            assert(s.last() == '/');
            assert(d[c.len() - 1] == b[k]);
        }
    }
}

/// A safe subkey is a valid subpath: a file of that name stays below the
/// session's directory.
pub proof fn law_safe_subpaths_are_valid(subpath: Seq<char>)
    requires
        is_plain_subpath(subpath),
    ensures
        subpath_fault(subpath) is None,
{
    reveal_strlit("..");
    assert(".."@ =~= seq!['.', '.']);
    if path_parts(subpath).contains(Part::Parent) {
        assert(path_parts(subpath) =~= piece_parts(split_on(subpath, '/')));
        lemma_parent_part(split_on(subpath, '/'));
        let up: Seq<char> = seq!['.', '.'];
        assert(!up.contains('\\'));
        lemma_piece_stays(subpath, up);
    }
}

/// The file of a subagent's transcript: `.jsonl` behind the last part of its
/// path.
pub open spec fn transcript_file(target: Seq<char>) -> Seq<char> {
    let name = match file_name_of(target) {
        Some(n) => n,
        None => Seq::empty(),
    };
    with_name(target, name + ".jsonl"@)
}

/// The file of a subagent's transcript.
pub fn with_extra_jsonl(target: &str) -> (r: String)
    ensures
        r@ == transcript_file(target@),
{
    match file_name(target) {
        Some(name) => with_file_name(target, &concat(&name, ".jsonl")),
        None => {
            proof {
                assert(Seq::<char>::empty() + ".jsonl"@ =~= ".jsonl"@);
            }
            with_file_name(target, ".jsonl")
        },
    }
}

/// An entry that describes a subagent.
pub open spec fn is_metadata(e: Members) -> bool {
    text_field(e, "type"@) == Some("agent_metadata"@)
}

/// The lines of a subagent's transcript.
pub open spec fn transcript_lines(es: Seq<Members>) -> Seq<Members> {
    es.filter(|e: Members| !is_metadata(e))
}

/// What describes a subagent: the last entry that does so, without its type.
pub open spec fn agent_fields(es: Seq<Members>) -> Option<Members>
    decreases es.len(),
{
    if es.len() == 0 {
        None
    } else if is_metadata(es.last()) {
        Some(swap_dropped(es.last(), "type"@))
    } else {
        agent_fields(es.drop_last())
    }
}

/// The entries of a subagent, as they go to its files.
#[derive(Debug)]
pub struct SubagentFiles {
    /// The lines of its transcript.
    pub transcript: Vec<SessionStoreEntry>,
    /// The fields of its sidecar file, where it has one.
    pub metadata: Option<JsonMap<String, Value>>,
}

/// Parts the entries of a subagent: those that describe it go to its sidecar
/// file, where the last one counts; the others are its transcript.
pub fn split_subagent_entries(entries: &Vec<SessionStoreEntry>) -> (r: SubagentFiles)
    ensures
        member_lists(r.transcript@) == transcript_lines(member_lists(entries@)),
        match r.metadata {
            Some(m) => agent_fields(member_lists(entries@)) == Some(members(m)),
            None => agent_fields(member_lists(entries@)) is None,
        },
{
    let ghost all = member_lists(entries@);
    let ghost keep = |e: Members| !is_metadata(e);
    let mut transcript: Vec<SessionStoreEntry> = Vec::new();
    let mut metadata: Option<JsonMap<String, Value>> = None;
    let mut i: usize = 0;
    proof {
        reveal(Seq::filter);
        assert(member_lists(transcript@) =~= transcript_lines(all.take(0)));
    }
    while i < entries.len()
        invariant
            all == member_lists(entries@),
            keep == (|e: Members| !is_metadata(e)),
            i <= entries@.len(),
            member_lists(transcript@) == transcript_lines(all.take(i as int)),
            match metadata {
                Some(m) => agent_fields(all.take(i as int)) == Some(members(m)),
                None => agent_fields(all.take(i as int)) is None,
            },
        decreases entries@.len() - i,
    {
        let ghost were = transcript@;
        proof {
            reveal(Seq::filter);
            assert(all.take(i as int + 1).drop_last() =~= all.take(i as int));
            assert(all.take(i as int + 1).last() == members(entries@[i as int]));
        }
        if crate::json::field_is(&entries[i], "type", "agent_metadata") {
            let mut m = entries[i].clone();
            let _ = remove(&mut m, "type");
            metadata = Some(m);
        } else {
            transcript.push(entries[i].clone());
            proof {
                assert(member_lists(transcript@) =~= member_lists(were).push(
                    members(entries@[i as int]),
                ));
            }
        }
        i = i + 1;
    }
    proof {
        assert(all.take(all.len() as int) =~= all);
    }
    SubagentFiles { transcript, metadata }
}

/// The text of a sidecar file.
pub fn sidecar_text(metadata: &JsonMap<String, Value>) -> (r: String)
    ensures
        r@ == printed(Json::Object(members(*metadata))),
        crate::json::is_plain(Json::Object(members(*metadata)), 100) ==> parsed(r@) == Some(
            Json::Object(members(*metadata)),
        ),
{
    print(&object_value(metadata.clone()))
}

/// Resuming undoes the import of a sidecar file: the fields that are written
/// are those that were read.
pub proof fn law_sidecar_survives_the_store(fields: Members, k: Seq<char>)
    requires
        distinct_keys(fields),
        !has_key(fields, "type"@),
    ensures
        is_metadata(metadata_entry(fields)),
        agent_fields(seq![metadata_entry(fields)]) matches Some(m) && lookup(m, k) == lookup(
            fields,
            k,
        ),
{
    let start: Members = seq![("type"@, Json::Str("agent_metadata"@))];
    let n = fields.len() as int;
    lemma_key_index(fields, "type"@);
    lemma_overlaid(start, fields, n, "type"@);
    lemma_overlaid(start, fields, n, k);
    assert(fields.take(n) =~= fields);
    let e = metadata_entry(fields);
    lemma_key_index(start, "type"@);
    assert(start[0].0 == "type"@);
    lemma_key_index(start, k);
    crate::json::law_lookup_after_drop(e, "type"@, k);
    let list = seq![e];
    assert(list.last() == e);
    if k != "type"@ {
        assert(lookup(start, k) is None);
    }
}

/// Members put over others are found; where they lack a key, the others' is.
proof fn lemma_overlaid(m: Members, fields: Members, n: int, k: Seq<char>)
    requires
        distinct_keys(m),
        0 <= n <= fields.len(),
        distinct_keys(fields),
    ensures
        distinct_keys(crate::sessions::import::overlaid(m, fields, n)),
        lookup(crate::sessions::import::overlaid(m, fields, n), k) == (match lookup(
            fields.take(n),
            k,
        ) {
            Some(v) => Some(v),
            None => lookup(m, k),
        }),
    decreases n,
{
    lemma_key_index(fields.take(n), k);
    if n == 0 {
        assert(!has_key(fields.take(0), k));
    } else {
        lemma_overlaid(m, fields, n - 1, k);
        let before = crate::sessions::import::overlaid(m, fields, n - 1);
        let (fk, fv) = fields[n - 1];
        crate::json::law_lookup_after_put(before, fk, fv, k);
        lemma_key_index(fields.take(n - 1), k);
        let a = fields.take(n - 1);
        let b = fields.take(n);
        if fk == k {
            assert(b[n - 1].0 == k);
            let i = crate::json::key_index(b, k);
            if i < n - 1 {
                assert(fields[i].0 != fields[n - 1].0);
            }
            assert(lookup(b, k) == Some(fv));
        } else {
            if has_key(a, k) {
                let i = crate::json::key_index(a, k);
                assert(b[i] == a[i]);
                let j = crate::json::key_index(b, k);
                if j != i {
                    assert(fields[i].0 == fields[j].0);
                }
            } else if has_key(b, k) {
                let j = crate::json::key_index(b, k);
                assert(a[j] == b[j]);
            }
        }
    }
}

// ---------------------------------------------------------------------------
// What a resume keeps
// ---------------------------------------------------------------------------

/// Nothing is lost when the entries of a subagent are parted. The entries that
/// do not describe it are its transcript, each as often as it was loaded and
/// in the order in which they were loaded; the others are left out. Entries
/// that are loaded one after the other are written one after the other.
pub proof fn law_subagent_transcript_keeps_entries(a: Seq<Members>, b: Seq<Members>, e: Members)
    ensures
        transcript_lines(a + b) == transcript_lines(a) + transcript_lines(b),
        (forall|i: int|
            0 <= i < a.len() ==> lookup(#[trigger] a[i], "type"@) != Some(
                Json::Str("agent_metadata"@),
            )) ==> transcript_lines(a) == a,
        (forall|i: int|
            0 <= i < a.len() ==> lookup(#[trigger] a[i], "type"@) == Some(
                Json::Str("agent_metadata"@),
            )) ==> transcript_lines(a).len() == 0,
        transcript_lines(a).to_multiset().count(e) == if lookup(e, "type"@) == Some(
            Json::Str("agent_metadata"@),
        ) {
            0
        } else {
            a.to_multiset().count(e)
        },
{
    let keep = |x: Members| !is_metadata(x);
    Seq::filter_distributes_over_add(a, b, keep);
    lemma_lines(a, e);
}

/// The lines of a transcript, entry by entry.
proof fn lemma_lines(a: Seq<Members>, e: Members)
    ensures
        (forall|i: int| 0 <= i < a.len() ==> !is_metadata(#[trigger] a[i])) ==> transcript_lines(a)
            == a,
        (forall|i: int| 0 <= i < a.len() ==> is_metadata(#[trigger] a[i])) ==> transcript_lines(
            a,
        ).len() == 0,
        transcript_lines(a).to_multiset().count(e) == if is_metadata(e) {
            0
        } else {
            a.to_multiset().count(e)
        },
    decreases a.len(),
{
    let keep = |x: Members| !is_metadata(x);
    reveal(Seq::filter);
    a.to_multiset_ensures();
    transcript_lines(a).to_multiset_ensures();
    if a.len() > 0 {
        let init = a.drop_last();
        let x = a.last();
        lemma_lines(init, e);
        assert(forall|i: int| 0 <= i < init.len() ==> #[trigger] init[i] == a[i]);
        assert(a[a.len() - 1] == x);
        if forall|i: int| 0 <= i < a.len() ==> !is_metadata(#[trigger] a[i]) {
            assert forall|i: int| 0 <= i < init.len() implies !is_metadata(#[trigger] init[i]) by {
                assert(!is_metadata(a[i]));
            }
            assert(init.push(x) =~= a);
        }
        if forall|i: int| 0 <= i < a.len() ==> is_metadata(#[trigger] a[i]) {
            assert forall|i: int| 0 <= i < init.len() implies is_metadata(#[trigger] init[i]) by {
                assert(is_metadata(a[i]));
            }
        }
        init.to_multiset_ensures();
        transcript_lines(init).to_multiset_ensures();
        assert(init.push(x) =~= a);
        if keep(x) {
            assert(transcript_lines(a) =~= transcript_lines(init).push(x));
        } else {
            assert(transcript_lines(a) =~= transcript_lines(init));
        }
    } else {
        assert(a =~= Seq::<Members>::empty());
        assert(transcript_lines(a) =~= Seq::<Members>::empty());
    }
}

/// The sidecar of a subagent holds the fields of the last entry that describes
/// it, all but the type. Without such an entry there is no sidecar.
pub proof fn law_last_description_counts(es: Seq<Members>, i: int, k: Seq<char>)
    requires
        -1 <= i < es.len(),
        i >= 0 ==> lookup(es[i], "type"@) == Some(Json::Str("agent_metadata"@)) && distinct_keys(
            es[i],
        ),
        forall|j: int|
            i < j < es.len() ==> lookup(#[trigger] es[j], "type"@) != Some(
                Json::Str("agent_metadata"@),
            ),
    ensures
        i < 0 ==> agent_fields(es) is None,
        i >= 0 ==> (agent_fields(es) matches Some(m) && lookup(m, k) == if k == "type"@ {
            None
        } else {
            lookup(es[i], k)
        }),
    decreases es.len(),
{
    if es.len() > 0 {
        let n = es.len() - 1;
        assert(es.last() == es[n]);
        if i == n {
            crate::json::law_lookup_after_drop(es[n], "type"@, k);
        } else {
            assert(!is_metadata(es[n]));
            let init = es.drop_last();
            assert(forall|j: int| 0 <= j < n ==> #[trigger] init[j] == es[j]);
            law_last_description_counts(init, i, k);
        }
    }
}

/// Without a store nothing is resumed from it. A named session is resumed
/// where its name is a UUID, whether or not the latest one is asked for too,
/// and nothing else is. The latest session is resumed where none is named, it
/// is asked for, and the store can list.
pub proof fn law_named_session_comes_first(o: Options)
    ensures
        o.session_store is None ==> resume_plan(o) == Plan::Nothing,
        o.session_store matches Some(caps) ==> {
            &&& o.resume matches Some(id) ==> resume_plan(o) == if is_uuid(id) {
                Plan::Session(id)
            } else {
                Plan::Nothing
            }
            &&& o.resume is None && o.continue_conversation && caps.list_sessions ==> resume_plan(o)
                == Plan::Latest
            &&& o.resume is None && !(o.continue_conversation && caps.list_sessions)
                ==> resume_plan(o) == Plan::Nothing
        },
{
}

/// Loaded entries are a session of the user where there are some and the
/// first does not say that it is of a side chain, whatever follows it.
pub proof fn law_first_entry_tells_the_users_session(first: Members, rest: Seq<Members>)
    ensures
        is_resumable(Some(seq![first] + rest)) <==> lookup(first, "isSidechain"@) != Some(
            Json::Bool(true),
        ),
        !is_resumable(Some(Seq::empty())),
        !is_resumable(None),
{
    assert((seq![first] + rest)[0] == first);
}

/// Of the environment in copied settings only the configuration directory is
/// left out. What is no object there stays, and settings without anything that
/// is to be left out stay as they are.
pub proof fn law_copied_settings_keep_the_environment(
    m: Members,
    name: Seq<char>,
    content: Seq<u8>,
)
    requires
        distinct_keys(m),
        object_field(m, "env"@) matches Some(env) ==> distinct_keys(env),
    ensures
        match lookup(m, "env"@) {
            Some(Json::Object(was)) => lookup(resume_settings(m), "env"@) matches Some(
                Json::Object(is),
            ) && lookup(is, name) == if name == "CLAUDE_CONFIG_DIR"@ {
                None
            } else {
                lookup(was, name)
            },
            other => lookup(resume_settings(m), "env"@) == other,
        },
        lookup(m, "enabledPlugins"@) is None && lookup(m, "extraKnownMarketplaces"@) is None && (
        lookup(m, "env"@) matches Some(Json::Object(was)) ==> lookup(
            was,
            "CLAUDE_CONFIG_DIR"@,
        ) is None) <==> !has_stripped(m),
        !has_stripped(m) ==> settings_from(content, Some(Json::Object(m))) == content,
        has_stripped(m) ==> settings_from(content, Some(Json::Object(m)))
            == vstd::utf8::encode_utf8(printed(Json::Object(resume_settings(m)))),
        settings_from(content, None) == content,
{
    let a = swap_dropped(m, "enabledPlugins"@);
    let b = swap_dropped(a, "extraKnownMarketplaces"@);
    reveal_strlit("enabledPlugins");
    reveal_strlit("extraKnownMarketplaces");
    reveal_strlit("env");
    assert("enabledPlugins"@.len() == 14);
    assert("extraKnownMarketplaces"@.len() == 22);
    assert("env"@.len() == 3);
    crate::json::law_lookup_after_drop(m, "enabledPlugins"@, "env"@);
    crate::json::law_lookup_after_drop(m, "enabledPlugins"@, "extraKnownMarketplaces"@);
    crate::json::law_lookup_after_drop(a, "extraKnownMarketplaces"@, "env"@);
    assert(lookup(b, "env"@) == lookup(m, "env"@));
    if let Some(env) = object_field(b, "env"@) {
        if has_key(env, "CLAUDE_CONFIG_DIR"@) {
            let v = Json::Object(swap_dropped(env, "CLAUDE_CONFIG_DIR"@));
            crate::json::law_lookup_after_drop(env, "CLAUDE_CONFIG_DIR"@, name);
            crate::json::law_lookup_after_put(b, "env"@, v, "env"@);
        }
    }
}

/// Credentials that are no object are copied by their value, and what is no
/// JSON text as it is. A missing login stays missing.
pub proof fn law_other_credentials_are_copied(text: Seq<char>, m: Members, j: Json)
    requires
        !(j is Object),
    ensures
        credentials_from(text, None) == text,
        credentials_from(text, Some(j)) == printed(j),
        lookup(m, "claudeAiOauth"@) is None ==> credentials_from(text, Some(Json::Object(m)))
            == printed(Json::Object(m)),
{
}

/// A subkey without a colon, a backslash or a NUL is safe where it does not
/// begin with a slash and no piece of it is one or two points.
pub proof fn law_ordinary_subpaths_are_safe(s: Seq<char>)
    requires
        s.len() > 0,
        s[0] != '/',
        !s.contains(':'),
        !s.contains('\\'),
        !s.contains('\0'),
        !split_on(s, '/').contains("."@),
        !split_on(s, '/').contains(".."@),
    ensures
        is_plain_subpath(s),
{
    assert(replaced(s, '\\', '/') =~= s) by {
        assert forall|i: int| 0 <= i < s.len() implies s[i] != '\\' by {}
    }
    assert(s[0] != '\\');
    if s.len() >= 2 {
        assert(s[1] != ':');
    }
}

/// The transcript of a subagent is the file with `.jsonl` behind its name.
pub proof fn law_transcripts_of_subagents(dir: Seq<char>, name: Seq<char>)
    requires
        dir.len() > 0,
        dir.last() != '/' && dir.last() != '.',
        crate::sessions::path::is_file_name(name),
    ensures
        transcript_file(dir + seq!['/'] + name) == dir + seq!['/'] + (name + ".jsonl"@),
{
    let other = name + ".jsonl"@;
    assert(other[0] == name[0]);
    crate::sessions::path::law_names_in_directories(dir, name, other);
}

/// A configuration directory in the options comes before one in the
/// environment, and an empty name is none. The home directory is that of the
/// environment, else that of the profile, else the current one.
pub proof fn law_configuration_sources(
    a: Seq<char>,
    b: Option<Seq<char>>,
    program: Seq<char>,
    content: Seq<u8>,
)
    ensures
        a.len() > 0 ==> named_config_dir(Some(a), b) == Some(a),
        a.len() == 0 ==> named_config_dir(Some(a), b) is None,
        named_config_dir(None, b) == nonempty_view(b),
        home_or_here(Some(a), b) == a,
        b matches Some(profile) ==> home_or_here(None, b) == profile,
        home_or_here(None, None) == "."@,
        main_config_name(program) == "."@ + program + ".json"@,
        without_mark(seq![0xEFu8, 0xBB, 0xBF] + content) == content,
        !(seq![0xEFu8, 0xBB, 0xBF].is_prefix_of(content)) ==> without_mark(content) == content,
        copied_settings(content) == settings_from(content, parsed_bytes(without_mark(content))),
{
    let mark = seq![0xEFu8, 0xBB, 0xBF];
    assert((mark + content).skip(3) =~= content);
    if content.len() >= 3 && content[0] == 0xEF && content[1] == 0xBB && content[2] == 0xBF {
        assert(content.subrange(0, 3) =~= mark);
        assert(mark.is_prefix_of(content));
    }
}

/// What is said of a call that went wrong names the call.
pub proof fn law_names_of_calls<'a>(id: &'a str, subpath: &'a str)
    ensures
        call_text(StoreCall::Load(id)) == "SessionStore::load() for session "@ + id@,
        call_text(StoreCall::LoadSubpath(id, subpath)) == "SessionStore::load() for session "@ + id@
            + " subpath "@ + subpath@,
        call_text(StoreCall::ListSessions) == "SessionStore::list_sessions()"@,
        call_text(StoreCall::ListSubkeys(id)) == "SessionStore::list_subkeys() for session "@ + id@,
{
}

/// The entry of a sidecar says what the sidecar says. It says that it is
/// metadata of an agent only where the sidecar has no type of its own.
pub proof fn law_sidecar_fields_come_first(fields: Members, k: Seq<char>)
    requires
        distinct_keys(fields),
    ensures
        lookup(fields, k) is Some ==> lookup(metadata_entry(fields), k) == lookup(fields, k),
        lookup(fields, k) is None && k == "type"@ ==> lookup(metadata_entry(fields), k) == Some(
            Json::Str("agent_metadata"@),
        ),
        lookup(fields, k) is None && k != "type"@ ==> lookup(metadata_entry(fields), k) is None,
{
    let start: Members = seq![("type"@, Json::Str("agent_metadata"@))];
    let n = fields.len() as int;
    lemma_overlaid(start, fields, n, k);
    assert(fields.take(n) =~= fields);
    lemma_key_index(start, k);
    assert(start[0].0 == "type"@);
}

} // verus!
