//! Runtime directory, socket and log path selection.
use vstd::prelude::*;
use directories::ProjectDirs;

use crate::text::decimal;
use crate::text::lemma_concat_cancel;
use crate::text::lemma_decimal_injective;
use crate::text::lemma_decimal_has_no_dash;
use crate::text::push_decimal;

verus! {

/// `directories::ProjectDirs`, carried through opaquely.
#[verifier::external_type_specification]
#[verifier::external_body]
pub struct ExProjectDirs(directories::ProjectDirs);

/// Environment variable that overrides the runtime directory.
pub const ENV_RUNTIME_DIR: &'static str = "GATEFS_RUNTIME_DIR";

/// Environment variable that overrides the session socket path.
pub const ENV_SOCKET: &'static str = "GATEFS_SOCKET";

/// Environment variable that overrides the log directory.
pub const ENV_LOG_DIR: &'static str = "GATEFS_LOG_DIR";

const QUALIFIER: &'static str = "net";

const ORGANIZATION: &'static str = "xz-dev";

const APPLICATION: &'static str = "gatefs";

/// `component` appended to `base` as a Unix path: an absolute component replaces the base,
/// otherwise a `/` separates the two unless `base` is empty or already ends in one.
pub open spec fn path_join(base: Seq<char>, component: Seq<char>) -> Seq<char> {
    if component.len() > 0 && component[0] == '/' {
        component
    } else if base.len() > 0 && base.last() != '/' {
        base + seq!['/'] + component
    } else {
        base + component
    }
}

/// The runtime directory that the project directories give: their runtime directory where
/// the platform has one, else `run` under their cache directory.
pub open spec fn project_runtime_dir(runtime: Option<Seq<char>>, cache: Seq<char>) -> Seq<char> {
    match runtime {
        Some(dir) => dir,
        None => path_join(cache, seq!['r', 'u', 'n']),
    }
}

/// Joins `component` onto `base` as `Path::join` does on Unix.
pub fn join_path(base: &str, component: &str) -> (joined: String)
    ensures
        joined@ == path_join(base@, component@),
{
    let component_len = component.unicode_len();
    if component_len > 0 && component.get_char(0) == '/' {
        return String::from_str(component);
    }
    let base_len = base.unicode_len();
    let mut joined = String::from_str(base);
    if base_len > 0 && base.get_char(base_len - 1) != '/' {
        proof {
            reveal_strlit("/");
        }
        joined.append("/");
    }
    joined.append(component);
    joined
}

/// Where a sandbox's runtime files live: the runtime directory, the log directory and, when
/// one was given, the socket path that overrides the default.
#[derive(Debug, Clone)]
pub struct RuntimePaths {
    pub runtime_dir: String,
    pub log_dir: String,
    socket_override: Option<String>,
}

/// The plain contents of [`RuntimePaths`].
pub struct RuntimePathsView {
    pub runtime_dir: Seq<char>,
    pub log_dir: Seq<char>,
    pub socket_override: Option<Seq<char>>,
}

pub open spec fn option_string_view(s: Option<String>) -> Option<Seq<char>> {
    match s {
        Some(text) => Some(text@),
        None => None,
    }
}

impl View for RuntimePaths {
    type V = RuntimePathsView;

    closed spec fn view(&self) -> RuntimePathsView {
        RuntimePathsView {
            runtime_dir: self.runtime_dir@,
            log_dir: self.log_dir@,
            socket_override: option_string_view(self.socket_override),
        }
    }
}

impl RuntimePaths {
    /// The runtime directory, as the `runtime_dir` field holds it.
    pub fn runtime_dir(&self) -> (dir: &String)
        ensures
            dir@ == self@.runtime_dir,
    {
        &self.runtime_dir
    }

    /// The log directory, as the `log_dir` field holds it.
    pub fn log_dir(&self) -> (dir: &String)
        ensures
            dir@ == self@.log_dir,
    {
        &self.log_dir
    }
}

/// The `tmp` directory under a runtime directory, where temporary mountpoints live.
pub fn runtime_tmp_dir(runtime_dir: &str) -> (dir: String)
    ensures
        dir@ == path_join(runtime_dir@, seq!['t', 'm', 'p']),
{
    proof {
        reveal_strlit("tmp");
    }
    join_path(runtime_dir, "tmp")
}

impl RuntimePaths {
    /// Paths rooted at `runtime_dir`, with the log directory equal to it.
    pub fn for_tests(runtime_dir: String, socket_override: Option<String>) -> (paths: Self)
        ensures
            paths@.runtime_dir == runtime_dir@,
            paths@.log_dir == runtime_dir@,
            paths@.socket_override == option_string_view(socket_override),
    {
        RuntimePaths { log_dir: runtime_dir.clone(), runtime_dir, socket_override }
    }

    /// Paths with a log directory of their own.
    pub fn for_tests_with_log_dir(
        runtime_dir: String,
        log_dir: String,
        socket_override: Option<String>,
    ) -> (paths: Self)
        ensures
            paths@.runtime_dir == runtime_dir@,
            paths@.log_dir == log_dir@,
            paths@.socket_override == option_string_view(socket_override),
    {
        RuntimePaths { runtime_dir, log_dir, socket_override }
    }

    /// Paths rooted at `runtime_dir` whose log directory is `log_dir_override` where one is
    /// given and the runtime directory otherwise.
    pub fn with_log_dir_override(
        runtime_dir: String,
        log_dir_override: Option<String>,
        socket_override: Option<String>,
    ) -> (paths: Self)
        ensures
            paths@.runtime_dir == runtime_dir@,
            paths@.log_dir == match log_dir_override {
                Some(dir) => dir@,
                None => runtime_dir@,
            },
            paths@.socket_override == option_string_view(socket_override),
    {
        let log_dir = match log_dir_override {
            Some(dir) => dir,
            None => runtime_dir.clone(),
        };
        RuntimePaths { runtime_dir, log_dir, socket_override }
    }

    /// The session socket of sandbox `name`: the override where one was given, else
    /// `<runtime>/<name>.sock`.
    pub fn socket_path(&self, name: &str) -> (path: String)
        ensures
            path@ == match self@.socket_override {
                Some(socket) => socket,
                None => path_join(self@.runtime_dir, name@ + seq!['.', 's', 'o', 'c', 'k']),
            },
    {
        match &self.socket_override {
            Some(socket) => socket.clone(),
            None => {
                proof {
                    reveal_strlit(".sock");
                }
                let mut file_name = String::from_str(name);
                file_name.append(".sock");
                join_path(self.runtime_dir.as_str(), file_name.as_str())
            },
        }
    }

    /// The operation log of sandbox `name`: `<log dir>/<name>.log`.
    pub fn sandbox_log_path(&self, name: &str) -> (path: String)
        ensures
            path@ == path_join(self@.log_dir, name@ + seq!['.', 'l', 'o', 'g']),
    {
        proof {
            reveal_strlit(".log");
        }
        let mut file_name = String::from_str(name);
        file_name.append(".log");
        join_path(self.log_dir.as_str(), file_name.as_str())
    }

    /// The temporary mountpoint of operation `operation_id` of sandbox `name`:
    /// `<runtime>/tmp/<name>-<operation_id>`.
    pub fn tmp_mount_dir(&self, name: &str, operation_id: u64) -> (path: String)
        ensures
            path@ == path_join(
                path_join(self@.runtime_dir, seq!['t', 'm', 'p']),
                name@ + seq!['-'] + decimal(operation_id as nat),
            ),
    {
        let tmp = runtime_tmp_dir(self.runtime_dir.as_str());
        proof {
            reveal_strlit("-");
        }
        let mut dir_name = String::from_str(name);
        dir_name.append("-");
        push_decimal(&mut dir_name, operation_id);
        join_path(tmp.as_str(), dir_name.as_str())
    }
}

/// Why the runtime directory could not be chosen.
#[derive(Debug, Clone, PartialEq, Eq, Structural)]
pub enum RuntimeError {
    /// The platform gave no standard project directories.
    NoProjectDirs,
}

impl RuntimeError {
    /// The error's message.
    pub fn message(&self) -> (text: String)
        ensures
            text@ == "could not determine standard project directories for gatefs"@,
    {
        String::from_str("could not determine standard project directories for gatefs")
    }
}

/// Whether `text` ends with `suffix`.
pub open spec fn ends_with(text: Seq<char>, suffix: Seq<char>) -> bool {
    suffix.len() <= text.len() && text.subrange(text.len() - suffix.len(), text.len() as int)
        == suffix
}

/// A name of lowercase ASCII letters, digits and `-`, not empty: one that the project path
/// of `ProjectDirs::from` keeps as it is.
pub open spec fn is_plain_name(name: Seq<char>) -> bool {
    &&& name.len() > 0
    &&& forall|i: int|
        0 <= i < name.len() ==> ('a' <= #[trigger] name[i] <= 'z') || ('0' <= name[i] <= '9')
            || name[i] == '-'
}

/// The project directories `dirs` keep their files under `application`: their cache
/// directory, and their runtime directory where they have one, end with that name.
pub open spec fn dirs_named_after(dirs: ProjectDirs, application: Seq<char>) -> bool {
    &&& ends_with(project_cache_location(dirs), application)
    &&& (project_runtime_location(dirs) matches Some(runtime) ==> ends_with(runtime, application))
}

/// Calls `ProjectDirs::from`. Whether directories are found, and where, depends on the
/// platform and the environment. What the source shows on the Unix platforms that gatefs
/// runs on (Linux and the other XDG systems, and macOS) is promised: the project path is the
/// application name (XDG: trimmed and lowercased; macOS: the last part of
/// `qualifier.organization.application`), and the cache and runtime directories are a base
/// joined with it; so for a plain application name both end with that name.
#[verifier::external_body]
fn project_dirs_from(qualifier: &str, organization: &str, application: &str) -> (found: Option<
    ProjectDirs,
>)
    ensures
        is_plain_name(application@) ==> (found matches Some(dirs) ==> dirs_named_after(
            dirs,
            application@,
        )),
{
    ProjectDirs::from(qualifier, organization, application)
}

/// The runtime directory that `dirs` hold, as `ProjectDirs::runtime_dir` gives it, converted
/// to a string (lossily where it is not UTF-8); `None` where the platform has none.
pub uninterp spec fn project_runtime_location(dirs: ProjectDirs) -> Option<Seq<char>>;

/// The cache directory that `dirs` hold, as `ProjectDirs::cache_dir` gives it, converted to
/// a string (lossily where it is not UTF-8).
pub uninterp spec fn project_cache_location(dirs: ProjectDirs) -> Seq<char>;

/// Calls `ProjectDirs::runtime_dir`, which reads a field of `dirs`, with the path converted
/// to a string (lossily where it is not UTF-8); the result is named by
/// `project_runtime_location`.
#[verifier::external_body]
fn project_dirs_runtime_dir(dirs: &ProjectDirs) -> (dir: Option<String>)
    ensures
        option_string_view(dir) == project_runtime_location(*dirs),
{
    match dirs.runtime_dir() {
        Some(path) => Some(path.to_string_lossy().into_owned()),
        None => None,
    }
}

/// Calls `ProjectDirs::cache_dir`, which reads a field of `dirs`, with the path converted to
/// a string (lossily where it is not UTF-8); the result is named by `project_cache_location`.
#[verifier::external_body]
fn project_dirs_cache_dir(dirs: &ProjectDirs) -> (dir: String)
    ensures
        dir@ == project_cache_location(*dirs),
{
    dirs.cache_dir().to_string_lossy().into_owned()
}

/// The qualifier, organization and application names under which gatefs asks for its
/// standard project directories.
pub fn project_names() -> (names: (&'static str, &'static str, &'static str))
    ensures
        names.0@ == "net"@,
        names.1@ == "xz-dev"@,
        names.2@ == "gatefs"@,
{
    (QUALIFIER, ORGANIZATION, APPLICATION)
}

/// The standard project directories of gatefs: those that `ProjectDirs::from` gives for
/// `project_names()`, or `NoProjectDirs` where it gives none.
pub fn project_dirs() -> (dirs: Result<ProjectDirs, RuntimeError>)
    ensures
        dirs matches Err(error) ==> error == RuntimeError::NoProjectDirs,
        dirs matches Ok(found) ==> dirs_named_after(found, "gatefs"@),
{
    let (qualifier, organization, application) = project_names();
    proof {
        lemma_gatefs_is_plain_name();
    }
    match project_dirs_from(qualifier, organization, application) {
        Some(dirs) => Ok(dirs),
        None => Err(RuntimeError::NoProjectDirs),
    }
}

/// The runtime directory given the project directories' runtime directory (if the platform
/// has one) and cache directory.
pub fn runtime_dir_from_locations(runtime: Option<String>, cache: &str) -> (dir: String)
    ensures
        dir@ == project_runtime_dir(option_string_view(runtime), cache@),
{
    match runtime {
        Some(dir) => dir,
        None => {
            proof {
                reveal_strlit("run");
            }
            join_path(cache, "run")
        },
    }
}

/// The runtime directory that `dirs` give.
pub fn runtime_dir_from_project_dirs(dirs: &ProjectDirs) -> (dir: String)
    ensures
        dir@ == project_runtime_dir(project_runtime_location(*dirs), project_cache_location(*dirs)),
{
    let runtime = project_dirs_runtime_dir(dirs);
    let cache = project_dirs_cache_dir(dirs);
    runtime_dir_from_locations(runtime, cache.as_str())
}

/// Whether `dir` is what a lookup of the project directories gives: the runtime directory
/// of the directories found, or `NoProjectDirs` where none were found.
pub open spec fn is_runtime_dir_of_lookup(
    lookup: Option<ProjectDirs>,
    dir: Result<String, RuntimeError>,
) -> bool {
    match lookup {
        Some(dirs) => dir matches Ok(found) && found@ == project_runtime_dir(
            project_runtime_location(dirs),
            project_cache_location(dirs),
        ),
        None => dir == Err::<String, RuntimeError>(RuntimeError::NoProjectDirs),
    }
}

/// The runtime directory that a lookup of the project directories gives.
pub fn runtime_dir_from_lookup(lookup: Option<ProjectDirs>) -> (dir: Result<String, RuntimeError>)
    ensures
        is_runtime_dir_of_lookup(lookup, dir),
{
    match lookup {
        Some(dirs) => Ok(runtime_dir_from_project_dirs(&dirs)),
        None => Err(RuntimeError::NoProjectDirs),
    }
}

/// The runtime directory: `override_dir` where the environment gives one, else the one
/// that the lookup of the standard project directories for `project_names()` gives.
pub fn runtime_dir_with_override(override_dir: Option<String>) -> (dir: Result<String, RuntimeError>)
    ensures
        override_dir matches Some(given) ==> dir == Ok::<String, RuntimeError>(given),
        override_dir is None ==> exists|lookup: Option<ProjectDirs>|
            is_runtime_dir_of_lookup(lookup, dir),
        override_dir is None ==> exists|lookup: Option<ProjectDirs>|
            is_runtime_dir_of_lookup(lookup, dir) && (lookup matches Some(dirs)
                ==> dirs_named_after(dirs, "gatefs"@)),
        override_dir is None ==> (dir matches Ok(found) ==> ends_with(found@, "gatefs"@)
            || ends_with(found@, "gatefs/run"@)),
{
    match override_dir {
        Some(given) => Ok(given),
        None => {
            let (qualifier, organization, application) = project_names();
            proof {
                lemma_gatefs_is_plain_name();
            }
            let lookup = project_dirs_from(qualifier, organization, application);
            proof {
                if lookup is Some {
                    lemma_runtime_dir_named_after(lookup->0, "gatefs"@);
                    reveal_strlit("gatefs/run");
                    assert(seq!['g', 'a', 't', 'e', 'f', 's'] + seq!['/', 'r', 'u', 'n']
                        =~= "gatefs/run"@);
                }
            }
            runtime_dir_from_lookup(lookup)
        },
    }
}

/// The application name of gatefs is a plain name.
proof fn lemma_gatefs_is_plain_name()
    ensures
        is_plain_name("gatefs"@),
        "gatefs"@ == seq!['g', 'a', 't', 'e', 'f', 's'],
{
    reveal_strlit("gatefs");
}

/// The runtime directory of project directories kept under a plain name ends with that
/// name: it is their runtime directory, or `run` under their cache directory.
pub proof fn lemma_runtime_dir_named_after(dirs: ProjectDirs, application: Seq<char>)
    requires
        is_plain_name(application),
        dirs_named_after(dirs, application),
    ensures
        ends_with(
            project_runtime_dir(project_runtime_location(dirs), project_cache_location(dirs)),
            application,
        ) || ends_with(
            project_runtime_dir(project_runtime_location(dirs), project_cache_location(dirs)),
            application + seq!['/', 'r', 'u', 'n'],
        ),
{
    if project_runtime_location(dirs) is None {
        let cache = project_cache_location(dirs);
        let n = application.len();
        assert(cache.last() == cache.subrange(cache.len() - n, cache.len() as int)[n - 1]);
        assert(cache.last() == application[n - 1]);
        let dir = path_join(cache, seq!['r', 'u', 'n']);
        assert(dir == cache + seq!['/'] + seq!['r', 'u', 'n']);
        assert(dir.subrange(dir.len() - (n + 4), dir.len() as int) =~= application + seq![
            '/',
            'r',
            'u',
            'n',
        ]);
    }
}

/// Whether a path component is absolute.
pub open spec fn is_absolute(component: Seq<char>) -> bool {
    component.len() > 0 && component[0] == '/'
}

/// Joining two relative components onto the same base gives different paths for different
/// components.
pub proof fn lemma_join_relative_injective(base: Seq<char>, x: Seq<char>, y: Seq<char>)
    requires
        !is_absolute(x),
        !is_absolute(y),
        x != y,
    ensures
        path_join(base, x) != path_join(base, y),
{
    if path_join(base, x) == path_join(base, y) {
        if base.len() > 0 && base.last() != '/' {
            assert(path_join(base, x) == base + seq!['/'] + x);
            assert(path_join(base, y) == base + seq!['/'] + y);
            assert(base + seq!['/'] + x =~= base + (seq!['/'] + x));
            assert(base + seq!['/'] + y =~= base + (seq!['/'] + y));
            lemma_concat_cancel(base, seq!['/'] + x, base, seq!['/'] + y);
            lemma_concat_cancel(seq!['/'], x, seq!['/'], y);
        } else {
            assert(path_join(base, x) == base + x);
            assert(path_join(base, y) == base + y);
            lemma_concat_cancel(base, x, base, y);
        }
    }
}

/// Without a socket override, sandboxes with different relative names get different
/// sockets.
pub proof fn lemma_default_socket_per_sandbox(paths: RuntimePaths, a: Seq<char>, b: Seq<char>)
    requires
        paths@.socket_override is None,
        !is_absolute(a),
        !is_absolute(b),
        a != b,
    ensures
        path_join(paths@.runtime_dir, a + seq!['.', 's', 'o', 'c', 'k']) != path_join(
            paths@.runtime_dir,
            b + seq!['.', 's', 'o', 'c', 'k'],
        ),
{
    let suffix = seq!['.', 's', 'o', 'c', 'k'];
    if a + suffix == b + suffix {
        lemma_concat_cancel(a, suffix, b, suffix);
    }
    lemma_join_relative_injective(paths@.runtime_dir, a + suffix, b + suffix);
}

/// Different operations of one sandbox get different temporary mountpoints.
pub proof fn lemma_tmp_mount_dirs_distinct(paths: RuntimePaths, name: Seq<char>, first: u64, second: u64)
    requires
        first != second,
    ensures
        path_join(
            path_join(paths@.runtime_dir, seq!['t', 'm', 'p']),
            name + seq!['-'] + decimal(first as nat),
        ) != path_join(
            path_join(paths@.runtime_dir, seq!['t', 'm', 'p']),
            name + seq!['-'] + decimal(second as nat),
        ),
{
    let base = path_join(paths@.runtime_dir, seq!['t', 'm', 'p']);
    let x = name + seq!['-'] + decimal(first as nat);
    let y = name + seq!['-'] + decimal(second as nat);
    lemma_decimal_injective(first as nat, second as nat);
    if x == y {
        assert(name + seq!['-'] + decimal(first as nat) =~= (name + seq!['-']) + decimal(first as nat));
        lemma_concat_cancel(name + seq!['-'], decimal(first as nat), name + seq!['-'], decimal(second as nat));
    }
    if is_absolute(x) {
        assert(x[0] == y[0]);
    } else {
        if name.len() > 0 {
            assert(x[0] == y[0]);
        }
        lemma_join_relative_injective(base, x, y);
    }
}

/// `name-digits` splits back into its name and digits at its last `-`.
proof fn lemma_dash_split(n1: Seq<char>, d1: Seq<char>, n2: Seq<char>, d2: Seq<char>)
    requires
        n1 + seq!['-'] + d1 == n2 + seq!['-'] + d2,
        forall|i: int| 0 <= i < d1.len() ==> #[trigger] d1[i] != '-',
        forall|i: int| 0 <= i < d2.len() ==> #[trigger] d2[i] != '-',
    ensures
        n1 == n2,
        d1 == d2,
{
    let x = n1 + seq!['-'] + d1;
    let y = n2 + seq!['-'] + d2;
    assert(x.len() == n1.len() + 1 + d1.len());
    assert(y.len() == n2.len() + 1 + d2.len());
    if d1.len() < d2.len() {
        let k = n1.len() as int;
        assert(x[k] == '-');
        assert(y[k] == d2[k - n2.len() - 1]);
    } else if d2.len() < d1.len() {
        let k = n2.len() as int;
        assert(y[k] == '-');
        assert(x[k] == d1[k - n1.len() - 1]);
    }
    assert(n1.len() == n2.len());
    assert forall|i: int| 0 <= i < n1.len() implies n1[i] == n2[i] by {
        assert(x[i] == n1[i] && y[i] == n2[i]);
    }
    assert forall|i: int| 0 <= i < d1.len() implies d1[i] == d2[i] by {
        assert(x[n1.len() + 1 + i] == d1[i] && y[n2.len() + 1 + i] == d2[i]);
    }
    assert(n1 =~= n2);
    assert(d1 =~= d2);
}

/// Different operations, of one sandbox or of sandboxes with different relative names, get
/// different temporary mountpoints.
pub proof fn lemma_tmp_mount_dirs_distinct_names(
    paths: RuntimePaths,
    first_name: Seq<char>,
    first: u64,
    second_name: Seq<char>,
    second: u64,
)
    requires
        first_name != second_name || first != second,
        !is_absolute(first_name),
        !is_absolute(second_name),
    ensures
        path_join(
            path_join(paths@.runtime_dir, seq!['t', 'm', 'p']),
            first_name + seq!['-'] + decimal(first as nat),
        ) != path_join(
            path_join(paths@.runtime_dir, seq!['t', 'm', 'p']),
            second_name + seq!['-'] + decimal(second as nat),
        ),
{
    let base = path_join(paths@.runtime_dir, seq!['t', 'm', 'p']);
    let x = first_name + seq!['-'] + decimal(first as nat);
    let y = second_name + seq!['-'] + decimal(second as nat);
    lemma_decimal_has_no_dash(first as nat);
    lemma_decimal_has_no_dash(second as nat);
    if first != second {
        lemma_decimal_injective(first as nat, second as nat);
    }
    if x == y {
        lemma_dash_split(first_name, decimal(first as nat), second_name, decimal(second as nat));
    }
    if first_name.len() > 0 {
        assert(x[0] == first_name[0]);
    } else {
        assert(x[0] == '-');
    }
    if second_name.len() > 0 {
        assert(y[0] == second_name[0]);
    } else {
        assert(y[0] == '-');
    }
    lemma_join_relative_injective(base, x, y);
}

} // verus!
