//! The ephemeral workspace: a directory under the temporary root whose
//! name is drawn at random, and the retry rule used while creating it.
use vstd::prelude::*;
use crate::text::push_char;

verus! {

/// Number of random characters in a workspace name.
pub const NAME_LEN: usize = 8;

/// How many creation attempts are made before giving up on name collisions.
pub const MAX_ATTEMPTS: u32 = 16;

/// ASCII letters and digits.
pub open spec fn is_name_char(c: char) -> bool {
    ('a' <= c && c <= 'z') || ('A' <= c && c <= 'Z') || ('0' <= c && c <= '9')
}

/// A well-formed workspace name: `NAME_LEN` ASCII letters and digits.
pub open spec fn is_workspace_name(name: Seq<char>) -> bool {
    name.len() == NAME_LEN && forall|i: int| 0 <= i < name.len() ==> is_name_char(#[trigger] name[i])
}

/// `root` joined with `name` by one separator (none is added when `root`
/// is empty or already ends in one).
pub open spec fn join_path(root: Seq<char>, name: Seq<char>) -> Seq<char> {
    if root.len() == 0 || root.last() == '/' {
        root + name
    } else {
        root.push('/') + name
    }
}

/// Relies on `fastrand::alphanumeric`: a character drawn from `A-Z`, `a-z`, `0-9`.
#[verifier::external_body]
fn random_alphanumeric() -> (c: char)
    ensures
        is_name_char(c),
{
    fastrand::alphanumeric()
}

/// A fresh random workspace name.
pub fn random_name() -> (r: String)
    ensures
        is_workspace_name(r@),
{
    let mut r = String::new();
    let mut i: usize = 0;
    while i < NAME_LEN
        invariant
            i <= NAME_LEN,
            r@.len() == i,
            forall|k: int| 0 <= k < i ==> is_name_char(#[trigger] r@[k]),
        decreases NAME_LEN - i,
    {
        let c = random_alphanumeric();
        push_char(&mut r, c);
        i = i + 1;
    }
    r
}

/// A workspace directory, identified by its path. Creating and removing
/// the directory on disk is the caller's part.
pub struct TempDir {
    path: String,
}

impl View for TempDir {
    type V = Seq<char>;

    closed spec fn view(&self) -> Seq<char> {
        self.path@
    }
}

impl TempDir {
    /// The workspace named `name` under `root`.
    pub fn at(root: &str, name: &str) -> (r: TempDir)
        ensures
            r@ == join_path(root@, name@),
    {
        let mut path = String::from_str(root);
        let n = root.unicode_len();
        if n > 0 && root.get_char(n - 1) != '/' {
            push_char(&mut path, '/');
        }
        path.append(name);
        TempDir { path }
    }

    /// A workspace with a fresh random name under `root`.
    pub fn new(root: &str) -> (r: TempDir)
        ensures
            exists|name: Seq<char>| is_workspace_name(name) && r@ == join_path(root@, name),
    {
        let name = random_name();
        let r = TempDir::at(root, name.as_str());
        assert(is_workspace_name(name@) && r@ == join_path(root@, name@));
        r
    }

    pub fn path(&self) -> (r: &str)
        ensures
            r@ == self@,
    {
        self.path.as_str()
    }
}

/// What happened when the workspace directory was to be created.
#[derive(Clone, Copy, Debug, PartialEq, Eq, Structural)]
pub enum CreateOutcome {
    Created,
    AlreadyExists,
    Failed,
}

/// What to do after a creation attempt.
#[derive(Clone, Copy, Debug, PartialEq, Eq, Structural)]
pub enum AcquireStep {
    /// The workspace exists and is ours.
    Ready,
    /// The name was taken: draw a new one and try again.
    Retry,
    /// Creation cannot succeed: report a resource error.
    GiveUp,
}

pub open spec fn acquire_step_spec(attempts: u32, outcome: CreateOutcome) -> AcquireStep {
    match outcome {
        CreateOutcome::Created => AcquireStep::Ready,
        CreateOutcome::AlreadyExists => if attempts < MAX_ATTEMPTS {
            AcquireStep::Retry
        } else {
            AcquireStep::GiveUp
        },
        CreateOutcome::Failed => AcquireStep::GiveUp,
    }
}

/// The step after the `attempts`-th creation attempt ended with `outcome`:
/// collisions are retried with a new name up to `MAX_ATTEMPTS` attempts,
/// any other failure gives up at once.
pub fn next_acquire_step(attempts: u32, outcome: CreateOutcome) -> (r: AcquireStep)
    ensures
        r == acquire_step_spec(attempts, outcome),
{
    match outcome {
        CreateOutcome::Created => AcquireStep::Ready,
        CreateOutcome::AlreadyExists => if attempts < MAX_ATTEMPTS {
            AcquireStep::Retry
        } else {
            AcquireStep::GiveUp
        },
        CreateOutcome::Failed => AcquireStep::GiveUp,
    }
}

} // verus!
