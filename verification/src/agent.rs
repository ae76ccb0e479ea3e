//! The options of an agent run that concern its session.
use vstd::prelude::*;

use crate::sessions::store::{copy_text, SessionStoreCapabilities};
use crate::text::{same, text_view};

verus! {

broadcast use vstd::string::group_string_axioms;

/// A variable of an environment and its value.
#[derive(Debug, PartialEq, Eq)]
pub struct EnvVar {
    /// The name.
    pub name: String,
    /// The value.
    pub value: String,
}

/// An environment as texts.
pub type Env = Seq<(Seq<char>, Seq<char>)>;

/// The contents of an environment.
pub open spec fn env_views(v: Seq<EnvVar>) -> Env {
    Seq::new(v.len(), |i: int| (v[i].name@, v[i].value@))
}

/// The first place of a variable, or the size of the environment.
pub open spec fn env_index(env: Env, name: Seq<char>) -> int
    decreases env.len(),
{
    if env.len() == 0 || env[0].0 == name {
        0
    } else {
        1 + env_index(env.skip(1), name)
    }
}

/// The value of a variable.
pub open spec fn env_value(env: Env, name: Seq<char>) -> Option<Seq<char>> {
    if env_index(env, name) < env.len() {
        Some(env[env_index(env, name)].1)
    } else {
        None
    }
}

/// An environment in which a variable has another value.
pub open spec fn env_with(env: Env, name: Seq<char>, value: Seq<char>) -> Env {
    if env_index(env, name) < env.len() {
        env.update(env_index(env, name), (name, value))
    } else {
        env.push((name, value))
    }
}

/// What a variable's place means.
proof fn lemma_env_index(env: Env, name: Seq<char>)
    ensures
        0 <= env_index(env, name) <= env.len(),
        env_index(env, name) < env.len() ==> env[env_index(env, name)].0 == name,
        forall|i: int| 0 <= i < env_index(env, name) ==> (#[trigger] env[i]).0 != name,
    decreases env.len(),
{
    if env.len() > 0 && env[0].0 != name {
        lemma_env_index(env.skip(1), name);
        assert forall|i: int| 0 <= i < env_index(env, name) implies (#[trigger] env[i]).0
            != name by {
            if i > 0 {
                assert(env.skip(1)[i - 1] == env[i]);
            }
        }
    }
}

/// The first place that has a name is the name's place.
proof fn lemma_env_place(env: Env, name: Seq<char>, at: int)
    requires
        0 <= at <= env.len(),
        at < env.len() ==> env[at].0 == name,
        forall|i: int| 0 <= i < at ==> (#[trigger] env[i]).0 != name,
    ensures
        env_index(env, name) == at,
{
    lemma_env_index(env, name);
    let k = env_index(env, name);
    if k < at {
        assert(env[k].0 != name);
    }
    if at < k {
        assert(env[at].0 != name);
    }
}

/// A variable that was set has the value that it was set to, and no other
/// variable changes.
pub proof fn law_env_value_after_set(
    env: Env,
    name: Seq<char>,
    value: Seq<char>,
    other: Seq<char>,
)
    ensures
        env_value(env_with(env, name, value), name) == Some(value),
        other != name ==> env_value(env_with(env, name, value), other) == env_value(env, other),
{
    lemma_env_index(env, name);
    lemma_env_index(env, other);
    let new = env_with(env, name, value);
    let at = env_index(env, name);
    assert forall|i: int| 0 <= i < at implies (#[trigger] new[i]).0 != name by {
        assert(env[i].0 != name);
    }
    lemma_env_place(new, name, at);
    if other != name {
        let k = env_index(env, other);
        if k < env.len() {
            assert forall|i: int| 0 <= i < k implies (#[trigger] new[i]).0 != other by {
                assert(env[i].0 != other);
            }
            lemma_env_place(new, other, k);
        } else {
            assert forall|i: int| 0 <= i < new.len() implies (#[trigger] new[i]).0 != other by {
                if i < env.len() {
                    assert(env[i].0 != other);
                }
            }
            lemma_env_place(new, other, new.len() as int);
        }
    }
}

/// The value of a variable.
pub fn env_get<'a>(env: &'a Vec<EnvVar>, name: &str) -> (r: Option<&'a str>)
    ensures
        crate::text::str_view(r) == env_value(env_views(env@), name@),
{
    let at = env_place(env, name);
    if at < env.len() {
        proof {
            assert(env_views(env@)[at as int].1 == env@[at as int].value@);
        }
        Some(env[at].value.as_str())
    } else {
        None
    }
}

/// The first place of a variable.
fn env_place(env: &Vec<EnvVar>, name: &str) -> (r: usize)
    ensures
        r == env_index(env_views(env@), name@),
        r <= env@.len(),
{
    let ghost all = env_views(env@);
    let mut i: usize = 0;
    proof {
        assert(all.skip(0) =~= all);
    }
    while i < env.len()
        invariant
            all == env_views(env@),
            i <= env@.len(),
            env_index(all, name@) == i + env_index(all.skip(i as int), name@),
        decreases env@.len() - i,
    {
        proof {
            assert(all.skip(i as int)[0] == all[i as int]);
            assert(all.skip(i as int).skip(1) =~= all.skip(i as int + 1));
        }
        if same(&env[i].name, name) {
            return i;
        }
        i = i + 1;
    }
    i
}

/// A copy of an environment in which a variable has another value.
pub fn env_set(env: &Vec<EnvVar>, name: &str, value: &str) -> (r: Vec<EnvVar>)
    ensures
        env_views(r@) == env_with(env_views(env@), name@, value@),
{
    let at = env_place(env, name);
    let mut out: Vec<EnvVar> = Vec::new();
    let mut i: usize = 0;
    while i < env.len()
        invariant
            i <= env@.len(),
            out@.len() == i,
            forall|j: int|
                0 <= j < i ==> (#[trigger] out@[j]).name@ == env@[j].name@ && out@[j].value@ == if j
                    == at {
                    value@
                } else {
                    env@[j].value@
                },
        decreases env@.len() - i,
    {
        let v: &str = if i == at {
            value
        } else {
            env[i].value.as_str()
        };
        out.push(EnvVar { name: env[i].name.clone(), value: v.to_owned() });
        i = i + 1;
    }
    proof {
        lemma_env_index(env_views(env@), name@);
    }
    if at == env.len() {
        let ghost were = out@;
        out.push(EnvVar { name: name.to_owned(), value: value.to_owned() });
        proof {
            assert(env_views(were) =~= env_views(env@));
            assert(env_views(out@) =~= env_views(were).push((name@, value@)));
        }
    } else {
        proof {
            assert(env_views(out@) =~= env_with(env_views(env@), name@, value@));
        }
    }
    out
}

/// The options of an agent run that concern its session.
#[derive(Debug)]
pub struct AgentOptions {
    /// What the store of the run can do, where the run has a store.
    pub session_store: Option<SessionStoreCapabilities>,
    /// Go on with the latest session of the project.
    pub continue_conversation: bool,
    /// Go on with this session.
    pub resume: Option<String>,
    /// Keep checkpoints of files on the local disk.
    pub enable_file_checkpointing: bool,
    /// Variables for the environment of the agent's process.
    pub env: Vec<EnvVar>,
    /// The working directory of the agent's process.
    pub cwd: Option<String>,
    /// How long the store may take to answer, in milliseconds.
    pub load_timeout_ms: u64,
}

/// The contents of [`AgentOptions`].
pub ghost struct Options {
    pub session_store: Option<SessionStoreCapabilities>,
    pub continue_conversation: bool,
    pub resume: Option<Seq<char>>,
    pub enable_file_checkpointing: bool,
    pub env: Env,
    pub cwd: Option<Seq<char>>,
    pub load_timeout_ms: u64,
}

impl View for AgentOptions {
    type V = Options;

    open spec fn view(&self) -> Options {
        Options {
            session_store: self.session_store,
            continue_conversation: self.continue_conversation,
            resume: text_view(self.resume),
            enable_file_checkpointing: self.enable_file_checkpointing,
            env: env_views(self.env@),
            cwd: text_view(self.cwd),
            load_timeout_ms: self.load_timeout_ms,
        }
    }
}

/// How long a store may take to answer by default.
pub const DEFAULT_LOAD_TIMEOUT_MS: u64 = 60_000;

impl Default for AgentOptions {
    /// A fresh session without a store.
    fn default() -> (r: Self)
        ensures
            r@ == (Options {
                session_store: None,
                continue_conversation: false,
                resume: None,
                enable_file_checkpointing: false,
                env: Seq::empty(),
                cwd: None,
                load_timeout_ms: DEFAULT_LOAD_TIMEOUT_MS,
            }),
    {
        let r = AgentOptions {
            session_store: None,
            continue_conversation: false,
            resume: None,
            enable_file_checkpointing: false,
            env: Vec::new(),
            cwd: None,
            load_timeout_ms: DEFAULT_LOAD_TIMEOUT_MS,
        };
        proof {
            assert(env_views(r.env@) =~= Seq::empty());
        }
        r
    }
}

impl AgentOptions {
    /// The same options with another session and environment.
    pub fn with_session(&self, resume: &str, env: Vec<EnvVar>) -> (r: Self)
        ensures
            r@ == (Options {
                continue_conversation: false,
                resume: Some(resume@),
                env: env_views(env@),
                ..self@
            }),
    {
        AgentOptions {
            session_store: self.session_store,
            continue_conversation: false,
            resume: Some(resume.to_owned()),
            enable_file_checkpointing: self.enable_file_checkpointing,
            env,
            cwd: copy_text(&self.cwd),
            load_timeout_ms: self.load_timeout_ms,
        }
    }
}

} // verus!
