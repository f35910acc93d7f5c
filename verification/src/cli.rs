//! The co-processor command-line helper: its settings, its commands, and the
//! docker invocations and service addresses it derives from them.

use vstd::prelude::*;
use vstd::string::{StringExecFns, StringSliceAdditionalSpecFns};

use crate::http::{
    json_array, json_as_array, json_as_str, json_from_slice, json_get, json_member, json_of,
    json_parses, json_string,
};
use crate::http_commands::json_error_text;
use crate::prover::{base64_bytes, base64_decode, base64_decodes, base64_error_text};
use crate::scheduler::strings_view;

verus! {

/// The declared type of filesystem paths given on the command line.
#[verifier::external_type_specification]
#[verifier::external_body]
pub struct ExPathBuf(std::path::PathBuf);

/// The settings of the command-line helper.
#[derive(Debug, Clone, PartialEq, Eq)]
pub struct App {
    /// Docker image
    pub docker: String,
    /// Address of the co-processor service.
    pub socket: String,
    /// Co-processor version tag.
    pub tag: String,
    /// Whether docker shares the host network.
    pub docker_host: bool,
}

impl App {
    /// The docker image of this release.
    pub const DEFAULT_DOCKER: &'static str = "vtw11/valence:0.3.3";
    /// The public co-processor service.
    pub const DEFAULT_SOCKET: &'static str = "https://service.coprocessor.valence.zone";
    /// The version tag of this release.
    pub const DEFAULT_TAG: &'static str = "v0.3.3";
    /// Docker does not share the host network by default.
    pub const DEFAULT_DOCKER_HOST: bool = false;
}

impl Default for App {
    fn default() -> (a: Self)
        ensures
            a.docker@ == App::DEFAULT_DOCKER@,
            a.socket@ == App::DEFAULT_SOCKET@,
            a.tag@ == App::DEFAULT_TAG@,
            a.docker_host == App::DEFAULT_DOCKER_HOST,
    {
        App {
            docker: String::from_str(Self::DEFAULT_DOCKER),
            socket: String::from_str(Self::DEFAULT_SOCKET),
            tag: String::from_str(Self::DEFAULT_TAG),
            docker_host: Self::DEFAULT_DOCKER_HOST,
        }
    }
}

/// The arguments of `docker` that run `cmd` of the co-processor image on the
/// workspace at `wsroot`, for `package` at `pkrelative` in it, followed by `args`.
pub open spec fn docker_args_spec(
    app: App,
    cmd: Seq<char>,
    wsroot: Seq<char>,
    package: Seq<char>,
    pkrelative: Seq<char>,
    args: Seq<Seq<char>>,
) -> Seq<Seq<char>> {
    seq!["run"@, "--rm"@, "-i"@] + (if app.docker_host {
        seq!["--network"@, "host"@]
    } else {
        Seq::empty()
    }) + seq![
        "-v"@,
        wsroot + ":/mnt"@,
        app.docker@,
        cmd,
        app.tag@,
        package,
        "/mnt"@ + pkrelative,
        app.socket@,
    ] + args
}

/// The address of a controller's `action` on the service at `socket`.
pub open spec fn controller_uri_spec(socket: Seq<char>, circuit: Seq<char>, action: Seq<char>) -> Seq<
    char,
> {
    socket + "/api/registry/controller/"@ + circuit + "/"@ + action
}

/// The views of a list of string slices.
pub open spec fn strs_view(v: Seq<&str>) -> Seq<Seq<char>> {
    v.map_values(|s: &str| s@)
}

impl App {
    /// Sets the docker image.
    pub fn with_docker(self, docker: &str) -> (a: Self)
        ensures
            a.docker@ == docker@,
            a.socket == self.socket,
            a.tag == self.tag,
            a.docker_host == self.docker_host,
    {
        App { docker: String::from_str(docker), ..self }
    }

    /// Sets the address of the co-processor service.
    pub fn with_socket(self, socket: &str) -> (a: Self)
        ensures
            a.socket@ == socket@,
            a.docker == self.docker,
            a.tag == self.tag,
            a.docker_host == self.docker_host,
    {
        App { socket: String::from_str(socket), ..self }
    }

    /// Sets the version tag.
    pub fn with_tag(self, tag: &str) -> (a: Self)
        ensures
            a.tag@ == tag@,
            a.docker == self.docker,
            a.socket == self.socket,
            a.docker_host == self.docker_host,
    {
        App { tag: String::from_str(tag), ..self }
    }

    /// Sets whether docker shares the host network.
    pub fn with_docker_host(self, docker_host: bool) -> (a: Self)
        ensures
            a.docker_host == docker_host,
            a.docker == self.docker,
            a.socket == self.socket,
            a.tag == self.tag,
    {
        App { docker_host, ..self }
    }

    /// The arguments of `docker` that run `cmd` of the co-processor image on
    /// the workspace at `wsroot` (mounted on `/mnt`), for `package` at
    /// `pkrelative` in it, followed by `args`.
    pub fn docker_args(
        &self,
        cmd: &str,
        wsroot: &str,
        package: &str,
        pkrelative: &str,
        args: &[&str],
    ) -> (r: Vec<String>)
        ensures
            strings_view(r@) == docker_args_spec(*self, cmd@, wsroot@, package@, pkrelative@, strs_view(args@)),
    {
        let mut r: Vec<String> = Vec::new();
        r.push(String::from_str("run"));
        r.push(String::from_str("--rm"));
        r.push(String::from_str("-i"));
        if self.docker_host {
            r.push(String::from_str("--network"));
            r.push(String::from_str("host"));
        }
        r.push(String::from_str("-v"));
        r.push(String::from_str(wsroot).concat(":/mnt"));
        r.push(self.docker.clone());
        r.push(String::from_str(cmd));
        r.push(self.tag.clone());
        r.push(String::from_str(package));
        r.push(String::from_str("/mnt").concat(pkrelative));
        r.push(self.socket.clone());
        let ghost head = strings_view(r@);
        assert(head =~= docker_args_spec(*self, cmd@, wsroot@, package@, pkrelative@, Seq::empty()));
        let n = r.len();
        let mut i: usize = 0;
        while i < args.len()
            invariant
                i <= args@.len(),
                r@.len() == n + i,
                head.len() == n,
                strings_view(r@) == head + strs_view(args@).subrange(0, i as int),
            decreases args@.len() - i,
        {
            let a = String::from_str(args[i]);
            let ghost prev = r@;
            r.push(a);
            i = i + 1;
            proof {
                let want = head + strs_view(args@).subrange(0, i as int);
                assert forall|j: int| 0 <= j < r@.len() implies #[trigger] strings_view(r@)[j] == want[j] by {
                    if j < r@.len() - 1 {
                        assert(r@[j] == prev[j]);
                        assert(strings_view(prev)[j] == (head + strs_view(args@).subrange(0, i - 1))[j]);
                    } else {
                        assert(r@[j]@ == args@[i - 1]@);
                        assert(want[j] == strs_view(args@)[i - 1]);
                    }
                }
                assert(strings_view(r@) =~= want);
            }
        }
        assert(strs_view(args@).subrange(0, args@.len() as int) =~= strs_view(args@));
        r
    }

    /// The address of the controller `circuit`'s `action` on the service.
    pub fn controller_uri(&self, circuit: &str, action: &str) -> (r: String)
        ensures
            r@ == controller_uri_spec(self.socket@, circuit@, action@),
    {
        self.socket.clone().concat("/api/registry/controller/").concat(circuit).concat("/").concat(
            action,
        )
    }
}

/// The part of `path` after its first `root_len` bytes: the path of a
/// directory relative to the workspace root, when `path` starts with the root.
pub fn path_suffix(path: &str, root_len: usize) -> (r: String)
    requires
        vstd::utf8::is_char_boundary(path.spec_bytes(), root_len as int),
    ensures
        vstd::utf8::encode_utf8(r@) == path.spec_bytes().subrange(
            root_len as int,
            path.spec_bytes().len() as int,
        ),
{
    let (_, rest) = path.split_at(root_len);
    rest.to_owned()
}

/// A member of a workspace, as `cargo metadata` lists it: its name and its
/// manifest path, each when it is a string.
#[derive(Debug)]
pub struct WorkspaceMember {
    pub name: Option<String>,
    pub manifest_path: Option<String>,
}

/// The manifest path of the first member named `circuit` that has one.
pub open spec fn member_manifest(ms: Seq<WorkspaceMember>, circuit: Seq<char>) -> Option<Seq<char>>
    decreases ms.len(),
{
    if ms.len() == 0 {
        None
    } else if ms[0].name matches Some(n) && n@ == circuit && ms[0].manifest_path is Some {
        Some(ms[0].manifest_path->0@)
    } else {
        member_manifest(ms.drop_first(), circuit)
    }
}

/// The view of an optional string.
pub open spec fn opt_view(s: Option<String>) -> Option<Seq<char>> {
    match s {
        Some(v) => Some(v@),
        None => None,
    }
}

/// The manifest path of the first workspace member named `circuit` that has
/// one.
pub fn find_member_manifest(members: &Vec<WorkspaceMember>, circuit: &str) -> (r: Option<String>)
    ensures
        opt_view(r) == member_manifest(members@, circuit@),
{
    let target = String::from_str(circuit);
    let mut i: usize = 0;
    assert(members@.subrange(0, members@.len() as int) =~= members@);
    while i < members.len()
        invariant
            target@ == circuit@,
            i <= members@.len(),
            member_manifest(members@, circuit@) == member_manifest(
                members@.subrange(i as int, members@.len() as int),
                circuit@,
            ),
        decreases members@.len() - i,
    {
        let m = &members[i];
        let ghost t = members@.subrange(i as int, members@.len() as int);
        assert(t[0] == members@[i as int]);
        assert(t.drop_first() =~= members@.subrange(i as int + 1, members@.len() as int));
        if let Some(n) = &m.name {
            if let Some(p) = &m.manifest_path {
                if n.clone() == target {
                    return Some(p.clone());
                }
            }
        }
        i = i + 1;
    }
    assert(members@.subrange(i as int, members@.len() as int) =~= Seq::<WorkspaceMember>::empty());
    None
}

/// What `std::path::Path::parent` gives for a path, written back as text.
pub uninterp spec fn path_parent(path: Seq<char>) -> Option<Seq<char>>;

/// Calls `std::path::Path::parent` on a path given as text and writes the
/// parent back as text; the result is named by `path_parent`.
#[verifier::external_body]
fn parent_directory(path: &str) -> (r: Option<String>)
    ensures
        opt_view(r) == path_parent(path@),
{
    match std::path::Path::new(path).parent() {
        Some(p) => Some(p.display().to_string()),
        None => None,
    }
}

/// The errors of the command-line helper's reading of a workspace.
#[derive(Debug)]
pub enum CliError {
    /// The cargo metadata names no workspace root.
    MissingWorkspaceRoot,
    /// The manifest has no parent directory.
    MissingParentDirectory,
    /// The manifest names no package.
    MissingPackageName,
    /// The cargo metadata lists no packages.
    MissingPackages,
    /// No workspace member has the circuit's name.
    CircuitNotFound { circuit: String, wsroot: String },
    /// The circuit's manifest has no parent directory.
    MissingCircuitDirectory,
    /// The cargo metadata is not JSON; the parser's message.
    InvalidMetadata(String),
    /// The manifest's directory is not below the workspace root.
    PackageOutsideWorkspace,
    /// The manifest is not TOML; the parser's message.
    InvalidManifest(String),
    /// Stored data is not base64; the decoder's message.
    InvalidStoredData(String),
    /// Stored data is not JSON; the parser's message.
    InvalidStoredJson(String),
    /// Stored data holds no proof text.
    UnexpectedProofFormat,
}

/// The message of an error.
pub open spec fn cli_error_message(e: CliError) -> Seq<char> {
    match e {
        CliError::MissingWorkspaceRoot => "failed to get workspace root from cargo metadata"@,
        CliError::MissingParentDirectory => "failed to get parent dir of manifest file"@,
        CliError::MissingPackageName => "failed to read package name from manifest"@,
        CliError::MissingPackages => "failed to get packages from metadata"@,
        CliError::CircuitNotFound { circuit, wsroot } => "could not find the circuit `"@ + circuit@
            + "` as workspace member of `"@ + wsroot@ + "`."@,
        CliError::MissingCircuitDirectory => "could not define the crate directory of the circuit package."@,
        CliError::InvalidMetadata(m) => m@,
        CliError::PackageOutsideWorkspace => "the package is not below the workspace root"@,
        CliError::InvalidManifest(m) => m@,
        CliError::InvalidStoredData(m) => m@,
        CliError::InvalidStoredJson(m) => m@,
        CliError::UnexpectedProofFormat => "unexpected data format for proof"@,
    }
}

impl CliError {
    /// The message of the error.
    pub fn message(&self) -> (s: String)
        ensures
            s@ == cli_error_message(*self),
    {
        match self {
            CliError::MissingWorkspaceRoot => String::from_str(
                "failed to get workspace root from cargo metadata",
            ),
            CliError::MissingParentDirectory => String::from_str(
                "failed to get parent dir of manifest file",
            ),
            CliError::MissingPackageName => String::from_str(
                "failed to read package name from manifest",
            ),
            CliError::MissingPackages => String::from_str("failed to get packages from metadata"),
            CliError::CircuitNotFound { circuit, wsroot } => String::from_str(
                "could not find the circuit `",
            ).concat(circuit.as_str()).concat("` as workspace member of `").concat(
                wsroot.as_str(),
            ).concat("`."),
            CliError::MissingCircuitDirectory => String::from_str(
                "could not define the crate directory of the circuit package.",
            ),
            CliError::InvalidMetadata(m) => m.clone(),
            CliError::PackageOutsideWorkspace => String::from_str(
                "the package is not below the workspace root",
            ),
            CliError::InvalidManifest(m) => m.clone(),
            CliError::InvalidStoredData(m) => m.clone(),
            CliError::InvalidStoredJson(m) => m.clone(),
            CliError::UnexpectedProofFormat => String::from_str("unexpected data format for proof"),
        }
    }
}

/// The directory of a package: the parent directory of its manifest.
pub fn package_directory(manifest: &str) -> (r: Result<String, CliError>)
    ensures
        match path_parent(manifest@) {
            Some(d) => r matches Ok(s) && s@ == d,
            None => r matches Err(CliError::MissingParentDirectory),
        },
{
    match parent_directory(manifest) {
        Some(d) => Ok(d),
        None => Err(CliError::MissingParentDirectory),
    }
}

/// The crate directory of the workspace member `circuit`: the parent
/// directory of the manifest of the first member with that name, among the
/// `packages` of the workspace at `wsroot`.
pub fn circuit_directory(packages: &Option<Vec<WorkspaceMember>>, circuit: &str, wsroot: &str) -> (r:
    Result<String, CliError>)
    ensures
        match packages {
            None => r matches Err(CliError::MissingPackages),
            Some(ms) => match member_manifest(ms@, circuit@) {
                None => r matches Err(CliError::CircuitNotFound { circuit: c, wsroot: w }) && c@
                    == circuit@ && w@ == wsroot@,
                Some(m) => match path_parent(m) {
                    None => r matches Err(CliError::MissingCircuitDirectory),
                    Some(d) => r matches Ok(s) && s@ == d,
                },
            },
        },
{
    let members = match packages {
        Some(ms) => ms,
        None => return Err(CliError::MissingPackages),
    };
    let manifest = match find_member_manifest(members, circuit) {
        Some(m) => m,
        None => {
            return Err(
                CliError::CircuitNotFound {
                    circuit: String::from_str(circuit),
                    wsroot: String::from_str(wsroot),
                },
            )
        },
    };
    match parent_directory(manifest.as_str()) {
        Some(d) => Ok(d),
        None => Err(CliError::MissingCircuitDirectory),
    }
}

/// The TOML values of `toml`.
#[verifier::external_type_specification]
#[verifier::external_body]
pub struct ExTomlValue(toml::Value);

/// The parse error of `toml`.
#[verifier::external_type_specification]
#[verifier::external_body]
pub struct ExTomlError(toml::de::Error);

/// Whether `toml::from_str` reads a text as a TOML value.
pub uninterp spec fn toml_parses(text: Seq<char>) -> bool;

/// The TOML value that `toml::from_str` reads from a text that holds one.
pub uninterp spec fn toml_of(text: Seq<char>) -> toml::Value;

/// Calls `toml::from_str` for a TOML value: whether it succeeds and the value
/// it reads are functions of the text alone.
#[verifier::external_body]
fn toml_from_str(text: &str) -> (r: Result<toml::Value, toml::de::Error>)
    ensures
        r is Ok <==> toml_parses(text@),
        r matches Ok(v) ==> v == toml_of(text@),
{
    toml::from_str(text)
}

/// Calls the `Display` of a `toml` parse error; nothing is stated of the
/// text.
#[verifier::external_body]
fn toml_error_text(e: &toml::de::Error) -> String {
    format!("{}", e)
}

/// What `toml::Value::get` finds under `name` in a value: the entry of that
/// name of a table, nothing for anything else.
pub uninterp spec fn toml_member(value: toml::Value, name: Seq<char>) -> Option<toml::Value>;

/// Calls `toml::Value::get` with an entry name and copies what it finds.
#[verifier::external_body]
fn toml_get(value: &toml::Value, name: &str) -> (r: Option<toml::Value>)
    ensures
        r == toml_member(*value, name@),
{
    value.get(name).cloned()
}

/// What `toml::Value::as_str` gives: the text of a string value.
pub uninterp spec fn toml_string(value: toml::Value) -> Option<Seq<char>>;

/// Calls `toml::Value::as_str` and copies the text.
#[verifier::external_body]
fn toml_as_str(value: &toml::Value) -> (r: Option<String>)
    ensures
        match r {
            Some(s) => toml_string(*value) == Some(s@),
            None => toml_string(*value) is None,
        },
{
    value.as_str().map(String::from)
}

/// The text of a string found under `name`, when there is one.
pub open spec fn json_text_at(value: serde_json::Value, name: Seq<char>) -> Option<Seq<char>> {
    match json_member(value, name) {
        Some(v) => json_string(v),
        None => None,
    }
}

/// The workspace root that cargo metadata names.
pub open spec fn metadata_root(metadata: serde_json::Value) -> Option<Seq<char>> {
    json_text_at(metadata, "workspace_root"@)
}

/// A package that cargo metadata lists: its name and manifest path, each when
/// it is a string.
pub open spec fn metadata_member(package: serde_json::Value) -> (Option<Seq<char>>, Option<Seq<char>>) {
    (json_text_at(package, "name"@), json_text_at(package, "manifest_path"@))
}

/// The packages that cargo metadata lists, when it lists them in an array.
pub open spec fn metadata_members(metadata: serde_json::Value) -> Option<
    Seq<(Option<Seq<char>>, Option<Seq<char>>)>,
> {
    match json_member(metadata, "packages"@) {
        Some(ps) => match json_array(ps) {
            Some(a) => Some(a.map_values(|p: serde_json::Value| metadata_member(p))),
            None => None,
        },
        None => None,
    }
}

/// The view of workspace members.
pub open spec fn members_view(ms: Seq<WorkspaceMember>) -> Seq<(Option<Seq<char>>, Option<Seq<char>>)> {
    ms.map_values(|m: WorkspaceMember| (opt_view(m.name), opt_view(m.manifest_path)))
}

/// The view of the members, when there are any.
pub open spec fn members_opt_view(ms: Option<Vec<WorkspaceMember>>) -> Option<
    Seq<(Option<Seq<char>>, Option<Seq<char>>)>,
> {
    match ms {
        Some(v) => Some(members_view(v@)),
        None => None,
    }
}

/// The text of a string found under `name`.
fn json_text_field(value: &serde_json::Value, name: &str) -> (r: Option<String>)
    ensures
        opt_view(r) == json_text_at(*value, name@),
{
    match json_get(value, name) {
        Some(v) => json_as_str(&v),
        None => None,
    }
}

/// The packages that cargo metadata lists.
fn read_members(metadata: &serde_json::Value) -> (r: Option<Vec<WorkspaceMember>>)
    ensures
        members_opt_view(r) == metadata_members(*metadata),
{
    let packages = match json_get(metadata, "packages") {
        Some(ps) => ps,
        None => return None,
    };
    let items = match json_as_array(&packages) {
        Some(a) => a,
        None => return None,
    };
    let ghost want = items@.map_values(|p: serde_json::Value| metadata_member(p));
    let mut members: Vec<WorkspaceMember> = Vec::new();
    let mut i: usize = 0;
    while i < items.len()
        invariant
            i <= items@.len(),
            members@.len() == i,
            want == items@.map_values(|p: serde_json::Value| metadata_member(p)),
            forall|j: int| 0 <= j < i ==> #[trigger] members_view(members@)[j] == want[j],
        decreases items@.len() - i,
    {
        let name = json_text_field(&items[i], "name");
        let manifest_path = json_text_field(&items[i], "manifest_path");
        let ghost before = members@;
        members.push(WorkspaceMember { name, manifest_path });
        proof {
            assert forall|j: int| 0 <= j <= i implies #[trigger] members_view(members@)[j] == want[j] by {
                if j < i {
                    assert(members@[j] == before[j]);
                    assert(members_view(before)[j] == want[j]);
                }
            }
        }
        i = i + 1;
    }
    assert(members_view(members@) =~= want);
    Some(members)
}

/// The workspace of a package, as cargo metadata describes it: its root,
/// the package's directory relative to that root, and its members.
#[derive(Debug)]
pub struct WorkspaceLayout {
    pub wsroot: String,
    pub pkrelative: String,
    pub members: Option<Vec<WorkspaceMember>>,
}

/// The workspace of the package whose manifest is at `manifest_path`, read
/// from the output of `cargo metadata`: refused when the output is not JSON,
/// names no workspace root, when the manifest has no parent directory, or
/// when that directory is not below the root (where the original panics).
pub fn workspace_layout(metadata: &[u8], manifest_path: &str) -> (r: Result<WorkspaceLayout, CliError>)
    ensures
        !json_parses(metadata@) ==> r matches Err(CliError::InvalidMetadata(_)),
        json_parses(metadata@) ==> match metadata_root(json_of(metadata@)) {
            None => r matches Err(CliError::MissingWorkspaceRoot),
            Some(w) => match path_parent(manifest_path@) {
                None => r matches Err(CliError::MissingParentDirectory),
                Some(d) => if vstd::utf8::is_char_boundary(
                    vstd::utf8::encode_utf8(d),
                    vstd::utf8::encode_utf8(w).len() as int,
                ) {
                    &&& r matches Ok(l)
                    &&& l.wsroot@ == w
                    &&& vstd::utf8::encode_utf8(l.pkrelative@) == vstd::utf8::encode_utf8(d).subrange(
                        vstd::utf8::encode_utf8(w).len() as int,
                        vstd::utf8::encode_utf8(d).len() as int,
                    )
                    &&& members_opt_view(l.members) == metadata_members(json_of(metadata@))
                } else {
                    r matches Err(CliError::PackageOutsideWorkspace)
                },
            },
        },
{
    let value = match json_from_slice(metadata) {
        Ok(v) => v,
        Err(e) => return Err(CliError::InvalidMetadata(json_error_text(&e))),
    };
    let wsroot = match json_text_field(&value, "workspace_root") {
        Some(w) => w,
        None => return Err(CliError::MissingWorkspaceRoot),
    };
    let parent = match parent_directory(manifest_path) {
        Some(d) => d,
        None => return Err(CliError::MissingParentDirectory),
    };
    let root_len = wsroot.as_str().as_bytes().len();
    if !parent.as_str().is_char_boundary(root_len) {
        return Err(CliError::PackageOutsideWorkspace);
    }
    let pkrelative = path_suffix(parent.as_str(), root_len);
    let members = read_members(&value);
    Ok(WorkspaceLayout { wsroot, pkrelative, members })
}

/// The package name that a TOML manifest holds under `package.name`.
pub open spec fn toml_package_name(manifest: toml::Value) -> Option<Seq<char>> {
    match toml_member(manifest, "package"@) {
        Some(p) => match toml_member(p, "name"@) {
            Some(n) => toml_string(n),
            None => None,
        },
        None => None,
    }
}

/// The name of the package of a manifest: refused when the manifest is not
/// TOML or has no string under `package.name`.
pub fn manifest_package(manifest: &str) -> (r: Result<String, CliError>)
    ensures
        !toml_parses(manifest@) ==> r matches Err(CliError::InvalidManifest(_)),
        toml_parses(manifest@) ==> match toml_package_name(toml_of(manifest@)) {
            Some(n) => r matches Ok(s) && s@ == n,
            None => r matches Err(CliError::MissingPackageName),
        },
{
    let value = match toml_from_str(manifest) {
        Ok(v) => v,
        Err(e) => return Err(CliError::InvalidManifest(toml_error_text(&e))),
    };
    let package = match toml_get(&value, "package") {
        Some(p) => p,
        None => return Err(CliError::MissingPackageName),
    };
    let name = match toml_get(&package, "name") {
        Some(n) => n,
        None => return Err(CliError::MissingPackageName),
    };
    match toml_as_str(&name) {
        Some(s) => Ok(s),
        None => Err(CliError::MissingPackageName),
    }
}

/// The proof text that stored data holds: the data is base64 of a JSON
/// object whose `proof` member is a string; each step that fails has its
/// error.
pub fn stored_proof(data: &str) -> (r: Result<String, CliError>)
    ensures
        !base64_decodes(data.spec_bytes()) ==> r matches Err(CliError::InvalidStoredData(_)),
        base64_decodes(data.spec_bytes()) && !json_parses(base64_bytes(data.spec_bytes())) ==> r matches Err(
            CliError::InvalidStoredJson(_),
        ),
        base64_decodes(data.spec_bytes()) && json_parses(base64_bytes(data.spec_bytes())) ==> match json_text_at(
            json_of(base64_bytes(data.spec_bytes())),
            "proof"@,
        ) {
            Some(p) => r matches Ok(s) && s@ == p,
            None => r matches Err(CliError::UnexpectedProofFormat),
        },
{
    let bytes = match base64_decode(data) {
        Ok(b) => b,
        Err(e) => return Err(CliError::InvalidStoredData(base64_error_text(&e))),
    };
    let value = match json_from_slice(bytes.as_slice()) {
        Ok(v) => v,
        Err(e) => return Err(CliError::InvalidStoredJson(json_error_text(&e))),
    };
    match json_text_field(&value, "proof") {
        Some(p) => Ok(p),
        None => Err(CliError::UnexpectedProofFormat),
    }
}

/// The deployments of the command-line helper.
#[derive(Debug)]
pub enum CmdDeploy {
    /// Deploys the domain definition to the co-processor
    Domain {
        /// Name of the domain to be deployed
        name: String,
        /// Path of the controller (defaults to current dir).
        controller: Option<std::path::PathBuf>,
    },
    /// Deploys a circuit to the co-processor.
    Circuit {
        /// Path of the controller. Must share a workspace with the circuit.
        controller: Option<std::path::PathBuf>,
        /// Workspace member name of the circuit.
        circuit: String,
    },
}

/// The commands of the command-line helper.
#[derive(Debug)]
pub enum Commands {
    /// Deploys definitions to the co-processor
    Deploy(CmdDeploy),
    /// Submits a proof request to the co-processor queue.
    Prove {
        /// ID of the deployed circuit
        circuit: String,
        /// Optional JSON argument to be passed to the controller.
        json: Option<String>,
        /// Path to store the proof on the virtual filesystem
        path: std::path::PathBuf,
    },
    /// Reads a file from the storage, returning its base64 data
    Storage {
        /// ID of the deployed circuit
        circuit: String,
        /// Path to the file on the virtual filesystem
        path: std::path::PathBuf,
    },
    /// Returns the VK of a circuit
    Vk {
        /// ID of the deployed circuit
        circuit: String,
    },
    /// Returns the public inputs of the proof stored on the provided path of
    /// the virtual filesystem.
    ProofInputs {
        /// ID of the deployed circuit
        circuit: String,
        /// Path to the file on the virtual filesystem
        path: std::path::PathBuf,
    },
}

} // verus!
