//! The metadata of a workspace, as `cargo metadata` gives it, and the name of
//! the workspace that follows from it.

use crate::command::CommandOutput;
use crate::encoding::{from_utf8, from_utf8_lossy};
use crate::order::{sorted_set, Relation};
use crate::paths::{
    below, compare_paths, components, depth_above, file_name, file_name_of, join, lies_in, parent,
    parent_of,
};
use crate::text::{owned, same_text, trim, views};
use vstd::prelude::*;
use vstd::slice::slice_to_vec;
use vstd::string::{to_string_from_display_ensures, StrSliceExecFns, StringExecFns};
use vstd::utf8::{decode_utf8, encode_utf8, valid_utf8};

verus! {

/// The command that tells the metadata of the workspace.
pub open spec fn metadata_words() -> Seq<Seq<char>> {
    seq!["cargo"@, "metadata"@, "--format-version"@, "1"@, "--no-deps"@]
}

/// The command that tells the metadata of the workspace.
pub fn metadata_command() -> (res: Vec<String>)
    ensures
        views(res@) == metadata_words(),
        views(res@) == seq!["cargo"@, "metadata"@, "--format-version"@, "1"@, "--no-deps"@],
{
    let res = owned(vec!["cargo", "metadata", "--format-version", "1", "--no-deps"]);
    assert(views(res@) =~= metadata_words());
    res
}

/// The command that tells the metadata of the workspace with the given manifest,
/// as bytes: its last word is a path.
pub fn metadata_command_for(manifest: &[u8]) -> (res: Vec<Vec<u8>>)
    ensures
        res@.map_values(|w: Vec<u8>| w@) == metadata_words().push("--manifest-path"@).map_values(
            |w: Seq<char>| encode_utf8(w),
        ).push(manifest@),
{
    let mut res: Vec<Vec<u8>> = Vec::new();
    res.push("cargo".as_bytes_vec());
    res.push("metadata".as_bytes_vec());
    res.push("--format-version".as_bytes_vec());
    res.push("1".as_bytes_vec());
    res.push("--no-deps".as_bytes_vec());
    res.push("--manifest-path".as_bytes_vec());
    res.push(slice_to_vec(manifest));
    assert(res@.map_values(|w: Vec<u8>| w@) =~= metadata_words().push(
        "--manifest-path"@,
    ).map_values(|w: Seq<char>| encode_utf8(w)).push(manifest@));
    res
}

/// The path of the manifest of the directory `dir`.
pub fn manifest_path(dir: &[u8]) -> (res: Vec<u8>)
    ensures
        res@ == below(dir@, encode_utf8("Cargo.toml"@)),
{
    join(dir, "Cargo.toml".as_bytes_vec().as_slice())
}

/// A JSON value, as far as anything here depends on it.
pub enum Json {
    Null,
    Bool(bool),
    Number,
    Text(Seq<char>),
    Array(Seq<Json>),
    Object(Map<Seq<char>, Json>),
}

impl Json {
    /// The member of an object.
    pub open spec fn member(self, key: Seq<char>) -> Option<Json> {
        match self {
            Json::Object(members) => if members.contains_key(key) {
                Some(members[key])
            } else {
                None
            },
            _ => None,
        }
    }

    /// The text of a string.
    pub open spec fn text(self) -> Option<Seq<char>> {
        match self {
            Json::Text(text) => Some(text),
            _ => None,
        }
    }

    /// The items of an array.
    pub open spec fn items(self) -> Option<Seq<Json>> {
        match self {
            Json::Array(items) => Some(items),
            _ => None,
        }
    }

    /// The text of the member of an object, where that is a string.
    pub open spec fn text_member(self, key: Seq<char>) -> Option<Seq<char>> {
        match self.member(key) {
            Some(value) => value.text(),
            None => None,
        }
    }
}

#[verifier::external_type_specification]
#[verifier::external_body]
pub struct ExValue(serde_json::Value);

#[verifier::external_type_specification]
#[verifier::external_body]
pub struct ExError(serde_json::Error);

/// What a `serde_json::Value` holds.
pub uninterp spec fn json_of(value: serde_json::Value) -> Json;

/// What `serde_json::from_slice` makes of bytes: the value that they are the
/// JSON text of, or the description of what is wrong with them.
pub uninterp spec fn parsed_json(bytes: Seq<u8>) -> Result<Json, Seq<char>>;

/// `serde_json::from_slice` reads a value from its JSON text. Its result, and
/// what `to_string` makes of its error, depend on the bytes alone. Which bytes
/// are the text of which value is left open here.
#[verifier::external_body]
fn parse_json(bytes: &[u8]) -> (res: Result<serde_json::Value, serde_json::Error>)
    ensures
        match res {
            Ok(value) => parsed_json(bytes@) == Ok::<Json, Seq<char>>(json_of(value)),
            Err(error) => parsed_json(bytes@) is Err && forall|text: String|
                #[trigger] to_string_from_display_ensures::<serde_json::Error>(&error, text)
                    ==> text@ == parsed_json(bytes@)->Err_0,
        },
{
    serde_json::from_slice(bytes)
}

/// `serde_json::Value::get` with a text gives the member of an object under
/// that key, and nothing where there is none or the value is no object.
#[verifier::external_body]
fn get<'a>(value: &'a serde_json::Value, key: &str) -> (res: Option<&'a serde_json::Value>)
    ensures
        match res {
            Some(member) => json_of(*value).member(key@) == Some(json_of(*member)),
            None => json_of(*value).member(key@) is None,
        },
{
    value.get(key)
}

/// `serde_json::Value::as_str` gives the text of a string, and nothing for any
/// other value.
pub assume_specification[ serde_json::Value::as_str ](value: &serde_json::Value) -> (res: Option<
    &str,
>)
    ensures
        match res {
            Some(text) => json_of(*value).text() == Some(text@),
            None => json_of(*value).text() is None,
        },
;

/// `serde_json::Value::as_array` gives the items of an array, and nothing for
/// any other value.
pub assume_specification[ serde_json::Value::as_array ](value: &serde_json::Value) -> (res: Option<
    &Vec<serde_json::Value>,
>)
    ensures
        match res {
            Some(items) => json_of(*value).items() == Some(
                items@.map_values(|item: serde_json::Value| json_of(item)),
            ),
            None => json_of(*value).items() is None,
        },
;

/// The characters of a text that may be missing.
pub open spec fn opt_view(text: Option<String>) -> Option<Seq<char>> {
    match text {
        Some(text) => Some(text@),
        None => None,
    }
}

/// What the metadata say of a package. What they do not say in the expected
/// form is missing.
#[derive(Debug)]
pub struct Package {
    /// By what the metadata refer to the package.
    pub id: Option<String>,
    /// The name of the package.
    pub name: Option<String>,
    /// Where its manifest stands.
    pub manifest_path: Option<String>,
    /// The oldest Rust version that it supports.
    pub rust_version: Option<String>,
    /// The edition of Rust that it is written in.
    pub edition: Option<String>,
}

/// The content of a [`Package`].
#[verifier::ext_equal]
pub struct PackageView {
    pub id: Option<Seq<char>>,
    pub name: Option<Seq<char>>,
    pub manifest_path: Option<Seq<char>>,
    pub rust_version: Option<Seq<char>>,
    pub edition: Option<Seq<char>>,
}

impl View for Package {
    type V = PackageView;

    open spec fn view(&self) -> PackageView {
        PackageView {
            id: opt_view(self.id),
            name: opt_view(self.name),
            manifest_path: opt_view(self.manifest_path),
            rust_version: opt_view(self.rust_version),
            edition: opt_view(self.edition),
        }
    }
}

/// The contents of packages.
pub open spec fn package_views(packages: Seq<Package>) -> Seq<PackageView> {
    packages.map_values(|p: Package| p@)
}

/// The metadata of a workspace.
#[derive(Debug)]
pub struct Metadata {
    /// The package at the root of the resolved dependencies.
    pub root: Option<String>,
    /// The default members of the workspace.
    pub default_members: Vec<String>,
    /// The packages.
    pub packages: Vec<Package>,
}

impl Metadata {
    /// The metadata of nothing.
    pub fn empty() -> (res: Self)
        ensures
            res@ == (MetadataView { root: None, default_members: seq![], packages: seq![] }),
    {
        let res = Metadata { root: None, default_members: Vec::new(), packages: Vec::new() };
        assert(res@ =~= MetadataView { root: None, default_members: seq![], packages: seq![] });
        res
    }
}

/// The content of a [`Metadata`].
#[verifier::ext_equal]
pub struct MetadataView {
    pub root: Option<Seq<char>>,
    pub default_members: Seq<Seq<char>>,
    pub packages: Seq<PackageView>,
}

impl View for Metadata {
    type V = MetadataView;

    open spec fn view(&self) -> MetadataView {
        MetadataView {
            root: opt_view(self.root),
            default_members: views(self.default_members@),
            packages: package_views(self.packages@),
        }
    }
}

/// What a JSON value says of a package.
pub open spec fn package_in(value: Json) -> PackageView {
    PackageView {
        id: value.text_member("id"@),
        name: value.text_member("name"@),
        manifest_path: value.text_member("manifest_path"@),
        rust_version: value.text_member("rust_version"@),
        edition: value.text_member("edition"@),
    }
}

/// The items of an array under a key, none where there is no such array.
pub open spec fn items_under(value: Json, key: Seq<char>) -> Seq<Json> {
    match value.member(key) {
        Some(member) => match member.items() {
            Some(items) => items,
            None => seq![],
        },
        None => seq![],
    }
}

/// The texts among JSON values, in their order.
pub open spec fn texts_among(values: Seq<Json>) -> Seq<Seq<char>>
    decreases values.len(),
{
    if values.len() == 0 {
        seq![]
    } else {
        let before = texts_among(values.drop_last());
        match values.last().text() {
            Some(text) => before.push(text),
            None => before,
        }
    }
}

/// What a JSON value says of a workspace.
pub open spec fn metadata_in(value: Json) -> MetadataView {
    MetadataView {
        root: match value.member("resolve"@) {
            Some(resolve) => resolve.text_member("root"@),
            None => None,
        },
        default_members: texts_among(items_under(value, "workspace_default_members"@)),
        packages: items_under(value, "packages"@).map_values(|p: Json| package_in(p)),
    }
}

fn text_under(value: &serde_json::Value, key: &str) -> (res: Option<String>)
    ensures
        opt_view(res) == json_of(*value).text_member(key@),
{
    match get(value, key) {
        Some(member) => match member.as_str() {
            Some(text) => Some(text.to_owned()),
            None => None,
        },
        None => None,
    }
}

fn read_default_members(value: &serde_json::Value) -> (res: Vec<String>)
    ensures
        views(res@) == texts_among(items_under(json_of(*value), "workspace_default_members"@)),
{
    let ghost wanted = items_under(json_of(*value), "workspace_default_members"@);
    let mut res: Vec<String> = Vec::new();
    assert(views(res@) =~= texts_among(wanted.take(0)));
    if let Some(members) = get(value, "workspace_default_members") {
        if let Some(items) = members.as_array() {
            for i in 0..items.len()
                invariant
                    wanted == items@.map_values(|item: serde_json::Value| json_of(item)),
                    views(res@) == texts_among(wanted.take(i as int)),
            {
                let ghost before = views(res@);
                assert(wanted.take(i + 1).drop_last() =~= wanted.take(i as int));
                assert(wanted.take(i + 1).last() == json_of(items@[i as int]));
                if let Some(text) = items[i].as_str() {
                    res.push(text.to_owned());
                    assert(views(res@) =~= before.push(text@));
                }
            }
            assert(wanted.take(items@.len() as int) =~= wanted);
        }
    }
    assert(wanted.len() == 0 ==> wanted.take(0) =~= wanted);
    res
}

fn read_packages(value: &serde_json::Value) -> (res: Vec<Package>)
    ensures
        package_views(res@) == items_under(json_of(*value), "packages"@).map_values(
            |p: Json| package_in(p),
        ),
{
    let ghost wanted = items_under(json_of(*value), "packages"@).map_values(
        |p: Json| package_in(p),
    );
    let mut res: Vec<Package> = Vec::new();
    if let Some(packages) = get(value, "packages") {
        if let Some(items) = packages.as_array() {
            for i in 0..items.len()
                invariant
                    wanted == items@.map_values(
                        |item: serde_json::Value| json_of(item),
                    ).map_values(|p: Json| package_in(p)),
                    package_views(res@) == wanted.take(i as int),
            {
                let ghost before = package_views(res@);
                let item = &items[i];
                let package = Package {
                    id: text_under(item, "id"),
                    name: text_under(item, "name"),
                    manifest_path: text_under(item, "manifest_path"),
                    rust_version: text_under(item, "rust_version"),
                    edition: text_under(item, "edition"),
                };
                assert(package@ == package_in(json_of(*item)));
                res.push(package);
                assert(package_views(res@) =~= before.push(package@));
                assert(wanted[i as int] == package_in(json_of(*item)));
                assert(wanted.take(i + 1) =~= before.push(package@));
            }
            assert(wanted.take(items@.len() as int) =~= wanted);
        }
    }
    assert(wanted.len() == 0 ==> package_views(res@) =~= wanted);
    res
}

/// What a JSON value says of a workspace.
pub fn read_metadata(value: &serde_json::Value) -> (res: Metadata)
    ensures
        res@ == metadata_in(json_of(*value)),
{
    let root = match get(value, "resolve") {
        Some(resolve) => text_under(resolve, "root"),
        None => None,
    };
    Metadata {
        root,
        default_members: read_default_members(value),
        packages: read_packages(value),
    }
}

/// Why the name of a workspace could not be told from its metadata.
#[derive(Debug)]
pub enum MetadataError {
    /// The workspace has no manifest.
    ManifestMissing,
    /// `cargo metadata` could not be run, for the given reason.
    NotRun(String),
    /// `cargo metadata` failed.
    Failed {
        /// How it ended, in words.
        status: String,
        /// What it wrote to its standard error.
        stderr: Vec<u8>,
    },
    /// `cargo metadata` wrote something that is no JSON text, for the given
    /// reason.
    Unparsable(String),
    /// The path of the manifest has no canonical form, for the given reason.
    NotCanonical(String),
    /// The manifest is that of no package.
    NoMatch,
}

/// The metadata in the JSON text that `cargo metadata` writes.
pub fn parse_metadata(stdout: &[u8]) -> (res: Result<Metadata, MetadataError>)
    ensures
        match res {
            Ok(metadata) => parsed_json(stdout@) is Ok && metadata@ == metadata_in(
                parsed_json(stdout@)->Ok_0,
            ),
            Err(error) => parsed_json(stdout@) is Err && error is Unparsable
                && error->Unparsable_0@ == parsed_json(stdout@)->Err_0,
        },
{
    match parse_json(stdout) {
        Ok(value) => Ok(read_metadata(&value)),
        Err(error) => Err(MetadataError::Unparsable(error.to_string())),
    }
}

/// The metadata that a run of `cargo metadata` gave: `Err` is why it could not
/// be run.
pub fn metadata_from_run(run: Result<CommandOutput, String>) -> (res: Result<
    Metadata,
    MetadataError,
>)
    ensures
        match run {
            Err(reason) => res == Err::<Metadata, MetadataError>(MetadataError::NotRun(reason)),
            Ok(output) => if !output.succeeded() {
                res == Err::<Metadata, MetadataError>(
                    MetadataError::Failed { status: output.status, stderr: output.stderr },
                )
            } else {
                match parsed_json(output.stdout@) {
                    Ok(value) => res is Ok && res->Ok_0@ == metadata_in(value),
                    Err(reason) => res is Err && res->Err_0 is Unparsable
                        && res->Err_0->Unparsable_0@ == reason,
                }
            },
        },
{
    match run {
        Err(reason) => Err(MetadataError::NotRun(reason)),
        Ok(output) => {
            if !output.success() {
                Err(MetadataError::Failed { status: output.status, stderr: output.stderr })
            } else {
                parse_metadata(output.stdout.as_slice())
            }
        },
    }
}

/// The name of the package with the given id. The search ends at a package
/// without an id.
pub open spec fn name_by_id(packages: Seq<PackageView>, id: Seq<char>) -> Option<Seq<char>>
    decreases packages.len(),
{
    if packages.len() == 0 {
        None
    } else {
        match packages[0].id {
            None => None,
            Some(found) => if found == id {
                packages[0].name
            } else {
                name_by_id(packages.skip(1), id)
            },
        }
    }
}

/// The name of the package with the given id. The search ends at a package
/// without an id.
pub fn package_name_by_id<'a>(metadata: &'a Metadata, package_id: &str) -> (res: Option<&'a str>)
    ensures
        match res {
            Some(name) => name_by_id(metadata@.packages, package_id@) == Some(name@),
            None => name_by_id(metadata@.packages, package_id@) is None,
        },
{
    let ghost all = metadata@.packages;
    assert(all.skip(0) =~= all);
    for i in 0..metadata.packages.len()
        invariant
            all == metadata@.packages,
            name_by_id(all, package_id@) == name_by_id(all.skip(i as int), package_id@),
    {
        let package = &metadata.packages[i];
        assert(all.skip(i as int)[0] == package@);
        assert(all.skip(i as int).skip(1) =~= all.skip(i + 1));
        match &package.id {
            None => {
                return None;
            },
            Some(id) => {
                if same_text(id.as_str(), package_id) {
                    return match &package.name {
                        Some(name) => Some(name.as_str()),
                        None => None,
                    };
                }
            },
        }
    }
    assert(all.skip(metadata.packages.len() as int).len() == 0);
    None
}

/// The search by id finds the first package with it, where every package before
/// that has an id.
pub proof fn lemma_name_by_id(packages: Seq<PackageView>, id: Seq<char>, at: int)
    requires
        0 <= at < packages.len(),
        packages[at].id == Some(id),
        forall|i: int|
            0 <= i < at ==> (#[trigger] packages[i]).id is Some && packages[i].id != Some(id),
    ensures
        name_by_id(packages, id) == packages[at].name,
    decreases at,
{
    if at > 0 {
        assert(packages[0].id is Some && packages[0].id != Some(id));
        assert forall|i: int| 0 <= i < at - 1 implies (#[trigger] packages.skip(1)[i]).id is Some
            && packages.skip(1)[i].id != Some(id) by {
            assert(packages.skip(1)[i] == packages[i + 1]);
        }
        lemma_name_by_id(packages.skip(1), id, at - 1);
    }
}

/// The name of the first of these packages that has one.
pub open spec fn first_name(packages: Seq<PackageView>, ids: Seq<Seq<char>>) -> Option<Seq<char>>
    decreases ids.len(),
{
    if ids.len() == 0 {
        None
    } else {
        match name_by_id(packages, ids[0]) {
            Some(name) => Some(name),
            None => first_name(packages, ids.skip(1)),
        }
    }
}

/// The name of the root package, or else of the first default member that has
/// one.
pub open spec fn declared_name(metadata: MetadataView) -> Option<Seq<char>> {
    let root = match metadata.root {
        Some(id) => name_by_id(metadata.packages, id),
        None => None,
    };
    match root {
        Some(name) => Some(name),
        None => first_name(metadata.packages, metadata.default_members),
    }
}

/// The name of the root package, or else of the first default member that has
/// one.
pub fn declared_workspace_name(metadata: &Metadata) -> (res: Option<String>)
    ensures
        opt_view(res) == declared_name(metadata@),
{
    if let Some(root) = &metadata.root {
        if let Some(name) = package_name_by_id(metadata, root.as_str()) {
            return Some(name.to_owned());
        }
    }
    let ghost ids = metadata@.default_members;
    assert(ids.skip(0) =~= ids);
    for i in 0..metadata.default_members.len()
        invariant
            ids == metadata@.default_members,
            declared_name(metadata@) == first_name(metadata@.packages, ids.skip(i as int)),
    {
        let id = metadata.default_members[i].as_str();
        assert(ids.skip(i as int)[0] == id@);
        assert(ids.skip(i as int).skip(1) =~= ids.skip(i + 1));
        if let Some(name) = package_name_by_id(metadata, id) {
            return Some(name.to_owned());
        }
    }
    assert(ids.skip(metadata.default_members.len() as int).len() == 0);
    None
}

/// The bytes of a path that may be missing.
pub open spec fn path_view(path: Option<Vec<u8>>) -> Option<Seq<u8>> {
    match path {
        Some(path) => Some(path@),
        None => None,
    }
}

/// The package has a name and its manifest is the given one. `canonical` is the
/// canonical form of its manifest's path, if there is one.
pub open spec fn has_manifest(
    package: PackageView,
    canonical: Option<Seq<u8>>,
    manifest: Seq<u8>,
) -> bool {
    &&& package.name is Some
    &&& package.manifest_path is Some
    &&& canonical matches Some(path)
    &&& components(path) == components(manifest)
}

/// The name of the first package whose manifest is the given one.
pub open spec fn name_by_manifest(
    packages: Seq<PackageView>,
    canonical: Seq<Option<Seq<u8>>>,
    manifest: Seq<u8>,
) -> Option<Seq<char>>
    decreases packages.len(),
{
    if packages.len() == 0 {
        None
    } else if has_manifest(packages[0], canonical[0], manifest) {
        packages[0].name
    } else {
        name_by_manifest(packages.skip(1), canonical.skip(1), manifest)
    }
}

/// The name of the first package whose manifest is the given one. `canonical`
/// are the canonical forms of the paths of the packages' manifests, where there
/// are any.
pub fn package_name_by_manifest<'a>(
    metadata: &'a Metadata,
    canonical: &Vec<Option<Vec<u8>>>,
    manifest: &[u8],
) -> (res: Option<&'a str>)
    requires
        canonical@.len() == metadata.packages@.len(),
    ensures
        ({
            let found = name_by_manifest(
                metadata@.packages,
                canonical@.map_values(|c: Option<Vec<u8>>| path_view(c)),
                manifest@,
            );
            match res {
                Some(name) => found == Some(name@),
                None => found is None,
            }
        }),
{
    let ghost all = metadata@.packages;
    let ghost paths = canonical@.map_values(|c: Option<Vec<u8>>| path_view(c));
    assert(all.skip(0) =~= all);
    assert(paths.skip(0) =~= paths);
    for i in 0..metadata.packages.len()
        invariant
            canonical@.len() == metadata.packages@.len(),
            all == metadata@.packages,
            paths == canonical@.map_values(|c: Option<Vec<u8>>| path_view(c)),
            name_by_manifest(all, paths, manifest@) == name_by_manifest(
                all.skip(i as int),
                paths.skip(i as int),
                manifest@,
            ),
    {
        let package = &metadata.packages[i];
        assert(all.skip(i as int)[0] == package@);
        assert(paths.skip(i as int)[0] == path_view(canonical@[i as int]));
        assert(all.skip(i as int).skip(1) =~= all.skip(i + 1));
        assert(paths.skip(i as int).skip(1) =~= paths.skip(i + 1));
        if let (Some(name), Some(_)) = (&package.name, &package.manifest_path) {
            if let Some(path) = &canonical[i] {
                if compare_paths(path.as_slice(), manifest) == Relation::Same {
                    return Some(name.as_str());
                }
            }
        }
    }
    assert(all.skip(metadata.packages.len() as int).len() == 0);
    None
}

/// The name of a workspace: that of its root package, or else of the first
/// default member that has one, or else of the package whose manifest is that
/// of the workspace. `manifest` is the canonical form of the path of the
/// workspace's manifest, or why there is none; `canonical` are those of the
/// packages' manifests, where there are any.
pub fn workspace_name_from_metadata(
    metadata: &Metadata,
    manifest: Result<Vec<u8>, String>,
    canonical: &Vec<Option<Vec<u8>>>,
) -> (res: Result<String, MetadataError>)
    requires
        canonical@.len() == metadata.packages@.len(),
    ensures
        match declared_name(metadata@) {
            Some(name) => res is Ok && res->Ok_0@ == name,
            None => match manifest {
                Err(reason) => res == Err::<String, MetadataError>(
                    MetadataError::NotCanonical(reason),
                ),
                Ok(path) => match name_by_manifest(
                    metadata@.packages,
                    canonical@.map_values(|c: Option<Vec<u8>>| path_view(c)),
                    path@,
                ) {
                    Some(name) => res is Ok && res->Ok_0@ == name,
                    None => res == Err::<String, MetadataError>(MetadataError::NoMatch),
                },
            },
        },
{
    if let Some(name) = declared_workspace_name(metadata) {
        return Ok(name);
    }
    match manifest {
        Err(reason) => Err(MetadataError::NotCanonical(reason)),
        Ok(path) => match package_name_by_manifest(metadata, canonical, path.as_slice()) {
            Some(name) => Ok(name.to_owned()),
            None => Err(MetadataError::NoMatch),
        },
    }
}

/// The message on a run of `cargo metadata` that failed.
pub open spec fn exit_message_text(status: Seq<char>, stderr: Seq<char>) -> Seq<char> {
    "cargo metadata exited with "@ + status + ": "@ + crate::text::trimmed(stderr)
}

/// The message on a run of `cargo metadata` that failed.
pub fn exit_message(status: &str, stderr: &str) -> (res: String)
    ensures
        res@ == exit_message_text(status@, stderr@),
{
    let mut res = "cargo metadata exited with ".to_owned();
    res.append(status);
    res.append(": ");
    res.append(trim(stderr).as_str());
    res
}

impl MetadataError {
    /// The error in words.
    pub open spec fn text(self) -> Seq<char> {
        match self {
            MetadataError::ManifestMissing => "Workspace manifest Cargo.toml not found"@,
            MetadataError::NotRun(reason) => "Failed to run cargo metadata: "@ + reason@,
            MetadataError::Failed { status, stderr } => exit_message_text(
                status@,
                crate::encoding::text_of(stderr@),
            ),
            MetadataError::Unparsable(reason) => "Failed to parse cargo metadata output: "@
                + reason@,
            MetadataError::NotCanonical(reason) => "Failed to canonicalize workspace manifest: "@
                + reason@,
            MetadataError::NoMatch => "Unable to match workspace manifest to any package"@,
        }
    }

    /// The error in words.
    pub fn message(&self) -> (res: String)
        ensures
            res@ == self.text(),
    {
        match self {
            MetadataError::ManifestMissing => "Workspace manifest Cargo.toml not found".to_owned(),
            MetadataError::NotRun(reason) => "Failed to run cargo metadata: ".to_owned().concat(
                reason.as_str(),
            ),
            MetadataError::Failed { status, stderr } => exit_message(
                status.as_str(),
                from_utf8_lossy(stderr.as_slice()).as_str(),
            ),
            MetadataError::Unparsable(reason) =>
            "Failed to parse cargo metadata output: ".to_owned().concat(reason.as_str()),
            MetadataError::NotCanonical(reason) =>
            "Failed to canonicalize workspace manifest: ".to_owned().concat(reason.as_str()),
            MetadataError::NoMatch =>
            "Unable to match workspace manifest to any package".to_owned(),
        }
    }
}

/// The name of a directory, where it has one that is UTF-8.
pub open spec fn directory_name(dir: Seq<u8>) -> Option<Seq<char>> {
    match file_name_of(dir) {
        Some(name) => if valid_utf8(name) {
            Some(decode_utf8(name))
        } else {
            None
        },
        None => None,
    }
}

/// The name of a workspace: the one told from its metadata, or else the name of
/// its directory `dir`, where it has one that is UTF-8, or else `facet`.
pub fn workspace_name(told: Option<String>, dir: &[u8]) -> (res: String)
    ensures
        res@ == (match told {
            Some(name) => name@,
            None => match directory_name(dir@) {
                Some(name) => name,
                None => "facet"@,
            },
        }),
{
    match told {
        Some(name) => name,
        None => {
            if let Some(bytes) = file_name(dir) {
                if let Some(name) = from_utf8(bytes.as_slice()) {
                    return name.to_owned();
                }
            }
            "facet".to_owned()
        },
    }
}

/// The names of packages, where they have any, in their order.
pub open spec fn names_of(packages: Seq<PackageView>) -> Seq<Seq<char>>
    decreases packages.len(),
{
    if packages.len() == 0 {
        seq![]
    } else {
        let before = names_of(packages.drop_last());
        match packages.last().name {
            Some(name) => before.push(name),
            None => before,
        }
    }
}

/// The crates of a workspace: the names of its packages, in increasing order
/// and each once.
pub fn workspace_crates(metadata: &Metadata) -> (res: Vec<String>)
    ensures
        crate::order::is_sorted_set(views(res@), names_of(metadata@.packages).to_set()),
{
    let ghost all = metadata@.packages;
    let mut names: Vec<String> = Vec::new();
    assert(views(names@) =~= names_of(all.take(0)));
    for i in 0..metadata.packages.len()
        invariant
            all == metadata@.packages,
            views(names@) == names_of(all.take(i as int)),
    {
        let ghost before = views(names@);
        assert(all.take(i + 1).drop_last() =~= all.take(i as int));
        assert(all.take(i + 1).last() == metadata.packages@[i as int]@);
        if let Some(name) = &metadata.packages[i].name {
            let kept = name.clone();
            names.push(kept);
            assert(views(names@) =~= before.push(kept@));
        }
    }
    assert(all.take(metadata.packages@.len() as int) =~= all);
    sorted_set(names)
}

/// The directory of a package: that of its manifest.
pub open spec fn package_dir(package: PackageView) -> Option<Seq<u8>> {
    match package.manifest_path {
        Some(path) => parent_of(encode_utf8(path)),
        None => None,
    }
}

/// The directory of a package: that of its manifest.
pub fn directory_of(package: &Package) -> (res: Option<Vec<u8>>)
    ensures
        path_view(res) == package_dir(package@),
{
    match &package.manifest_path {
        Some(path) => parent(path.as_str().as_bytes_vec().as_slice()),
        None => None,
    }
}

/// The name of the first package whose directory is the given one and that has
/// a name.
pub open spec fn name_at(packages: Seq<PackageView>, dir: Seq<u8>) -> Option<Seq<char>>
    decreases packages.len(),
{
    if packages.len() == 0 {
        None
    } else {
        match (packages[0].name, package_dir(packages[0])) {
            (Some(name), Some(found)) => if components(found) == components(dir) {
                Some(name)
            } else {
                name_at(packages.skip(1), dir)
            },
            _ => name_at(packages.skip(1), dir),
        }
    }
}

/// The name of the first package whose directory is the given one and that has
/// a name.
pub fn package_name_at(metadata: &Metadata, dir: &[u8]) -> (res: Option<String>)
    ensures
        opt_view(res) == name_at(metadata@.packages, dir@),
{
    let ghost all = metadata@.packages;
    assert(all.skip(0) =~= all);
    for i in 0..metadata.packages.len()
        invariant
            all == metadata@.packages,
            name_at(all, dir@) == name_at(all.skip(i as int), dir@),
    {
        let package = &metadata.packages[i];
        assert(all.skip(i as int)[0] == package@);
        assert(all.skip(i as int).skip(1) =~= all.skip(i + 1));
        if let (Some(name), Some(found)) = (&package.name, directory_of(package)) {
            if compare_paths(found.as_slice(), dir) == Relation::Same {
                return Some(name.clone());
            }
        }
    }
    assert(all.skip(metadata.packages.len() as int).len() == 0);
    None
}

/// The file is in the directory of the package.
pub open spec fn holds(package: PackageView, path: Seq<u8>) -> bool {
    package_dir(package) matches Some(dir) && lies_in(path, dir)
}

/// How many components the directory of a package has.
pub open spec fn depth_of(package: PackageView) -> nat {
    components(package_dir(package)->0).len()
}

/// The package that a file belongs to: of those whose directory it is in, the
/// first of which the directory is deepest.
pub open spec fn owner_of(packages: Seq<PackageView>, path: Seq<u8>) -> Option<int>
    decreases packages.len(),
{
    if packages.len() == 0 {
        None
    } else {
        let before = owner_of(packages.drop_last(), path);
        let last = packages.last();
        let deepest = match before {
            Some(i) => depth_of(packages[i]) < depth_of(last),
            None => true,
        };
        if holds(last, path) && deepest {
            Some(packages.len() - 1)
        } else {
            before
        }
    }
}

/// The package that a file belongs to holds it, and no other that holds it has a
/// deeper directory. A file that any package holds belongs to one.
pub proof fn lemma_owner(packages: Seq<PackageView>, path: Seq<u8>)
    ensures
        match owner_of(packages, path) {
            Some(at) => 0 <= at < packages.len() && holds(packages[at], path) && forall|i: int|
                0 <= i < packages.len() && holds(#[trigger] packages[i], path) ==> depth_of(
                    packages[i],
                ) <= depth_of(packages[at]),
            None => forall|i: int|
                0 <= i < packages.len() ==> !holds(#[trigger] packages[i], path),
        },
    decreases packages.len(),
{
    if packages.len() > 0 {
        let before = packages.drop_last();
        lemma_owner(before, path);
        assert forall|i: int|
            0 <= i < packages.len() && holds(#[trigger] packages[i], path) implies owner_of(
            packages,
            path,
        ) is Some && depth_of(packages[i]) <= depth_of(packages[owner_of(packages, path)->0]) by {
            if i < before.len() {
                assert(before[i] == packages[i]);
            }
        }
    }
}

/// The package that a file belongs to: of those whose directory it is in, the
/// first of which the directory is deepest.
pub fn owner<'a>(metadata: &'a Metadata, path: &[u8]) -> (res: Option<&'a Package>)
    ensures
        match res {
            Some(package) => owner_of(metadata@.packages, path@) is Some
                && metadata@.packages[owner_of(metadata@.packages, path@)->0] == package@,
            None => owner_of(metadata@.packages, path@) is None,
        },
{
    let ghost all = metadata@.packages;
    let mut found: Option<(usize, usize)> = None;
    for i in 0..metadata.packages.len()
        invariant
            all == metadata@.packages,
            match found {
                Some((at, depth)) => at < i && owner_of(all.take(i as int), path@) == Some(
                    at as int,
                ) && depth == depth_of(all[at as int]),
                None => owner_of(all.take(i as int), path@) is None,
            },
    {
        let package = &metadata.packages[i];
        assert(all[i as int] == package@);
        assert(all.take(i + 1).drop_last() =~= all.take(i as int));
        assert(all.take(i + 1).last() == package@);
        if let Some(dir) = directory_of(package) {
            if let Some(depth) = depth_above(path, dir.as_slice()) {
                let deepest = match found {
                    Some((_, other)) => other < depth,
                    None => true,
                };
                if deepest {
                    found = Some((i, depth));
                }
            }
        }
    }
    assert(all.take(metadata.packages@.len() as int) =~= all);
    match found {
        Some((at, _)) => {
            assert(all[at as int] == metadata.packages@[at as int]@);
            Some(&metadata.packages[at])
        },
        None => None,
    }
}

/// The edition of Rust that a file is written in: that of the package that it
/// belongs to, or 2024 where that is not told.
pub open spec fn edition_of(packages: Seq<PackageView>, path: Seq<u8>) -> Seq<char> {
    match owner_of(packages, path) {
        Some(at) => match packages[at].edition {
            Some(edition) => edition,
            None => "2024"@,
        },
        None => "2024"@,
    }
}

/// The edition of Rust that a file is written in: that of the package that it
/// belongs to, or 2024 where that is not told.
pub fn edition_for(metadata: &Metadata, path: &[u8]) -> (res: String)
    ensures
        res@ == edition_of(metadata@.packages, path@),
{
    match owner(metadata, path) {
        Some(package) => match &package.edition {
            Some(edition) => edition.clone(),
            None => "2024".to_owned(),
        },
        None => "2024".to_owned(),
    }
}

/// All packages support the same oldest Rust version.
pub open spec fn same_rust_version(packages: Seq<PackageView>) -> bool {
    forall|i: int, j: int|
        0 <= i < packages.len() && 0 <= j < packages.len() ==> (#[trigger] packages[i]).rust_version
            == (#[trigger] packages[j]).rust_version
}

/// Whether all packages support the same oldest Rust version.
pub fn msrv_is_consistent(metadata: &Metadata) -> (res: bool)
    ensures
        res == same_rust_version(metadata@.packages),
        res <==> forall|i: int, j: int|
            0 <= i < metadata@.packages.len() && 0 <= j < metadata@.packages.len() ==> (
            #[trigger] metadata@.packages[i]).rust_version == (
            #[trigger] metadata@.packages[j]).rust_version,
{
    let ghost all = metadata@.packages;
    for i in 0..metadata.packages.len()
        invariant
            all == metadata@.packages,
            forall|j: int| 0 <= j < i ==> (#[trigger] all[j]).rust_version
                == all[0].rust_version,
    {
        assert(all[i as int] == metadata.packages@[i as int]@);
        assert(all[0] == metadata.packages@[0]@);
        let same = match (&metadata.packages[i].rust_version, &metadata.packages[0].rust_version) {
            (Some(a), Some(b)) => same_text(a.as_str(), b.as_str()),
            (None, None) => true,
            _ => false,
        };
        if !same {
            return false;
        }
    }
    true
}

/// A line that describes a package: its name, its oldest supported Rust
/// version, and the path of its manifest.
pub open spec fn package_line(package: PackageView) -> Seq<char> {
    or_unknown(package.name) + " (Rust "@ + or_unknown(package.rust_version) + ") "@ + or_unknown(
        package.manifest_path,
    )
}

/// A text, or a word that says it is missing.
pub open spec fn or_unknown(text: Option<Seq<char>>) -> Seq<char> {
    match text {
        Some(text) => text,
        None => "unknown"@,
    }
}

fn append_or_unknown(line: &mut String, text: &Option<String>)
    ensures
        final(line)@ == old(line)@ + or_unknown(opt_view(*text)),
{
    match text {
        Some(text) => line.append(text.as_str()),
        None => line.append("unknown"),
    }
}

/// The lines that describe the packages of a workspace.
pub fn package_lines(metadata: &Metadata) -> (res: Vec<String>)
    ensures
        views(res@) == metadata@.packages.map_values(|p: PackageView| package_line(p)),
{
    let mut res: Vec<String> = Vec::new();
    let ghost wanted = metadata@.packages.map_values(|p: PackageView| package_line(p));
    for i in 0..metadata.packages.len()
        invariant
            wanted == metadata@.packages.map_values(|p: PackageView| package_line(p)),
            views(res@) == wanted.take(i as int),
    {
        let ghost before = views(res@);
        let package = &metadata.packages[i];
        let mut line = String::new();
        append_or_unknown(&mut line, &package.name);
        line.append(" (Rust ");
        append_or_unknown(&mut line, &package.rust_version);
        line.append(") ");
        append_or_unknown(&mut line, &package.manifest_path);
        assert(metadata@.packages[i as int] == package@);
        assert(line@ =~= package_line(package@));
        res.push(line);
        assert(views(res@) =~= before.push(line@));
        assert(wanted.take(i + 1) =~= before.push(line@));
    }
    assert(wanted.take(metadata.packages@.len() as int) =~= wanted);
    res
}

/// What is read of a package is what it holds.
pub proof fn lemma_package_view(package: Package)
    ensures
        package.id matches Some(id) ==> package@.id == Some(id@),
        package.id is None ==> package@.id is None,
        package.name matches Some(name) ==> package@.name == Some(name@),
        package.name is None ==> package@.name is None,
        package.manifest_path matches Some(path) ==> package@.manifest_path == Some(path@),
        package.manifest_path is None ==> package@.manifest_path is None,
        package.rust_version matches Some(version) ==> package@.rust_version == Some(version@),
        package.rust_version is None ==> package@.rust_version is None,
        package.edition matches Some(edition) ==> package@.edition == Some(edition@),
        package.edition is None ==> package@.edition is None,
{
}

/// What is read of metadata is what they hold, with the packages and the default
/// members in their order.
pub proof fn lemma_metadata_view(metadata: Metadata)
    ensures
        metadata.root matches Some(root) ==> metadata@.root == Some(root@),
        metadata.root is None ==> metadata@.root is None,
        metadata@.default_members == views(metadata.default_members@),
        metadata@.packages.len() == metadata.packages@.len(),
        forall|i: int|
            0 <= i < metadata.packages@.len() ==> #[trigger] metadata@.packages[i]
                == metadata.packages@[i]@,
{
}

/// A package is told by five members of its object. Each is taken if and only
/// if it is there and is a text.
pub proof fn lemma_package_in(members: Map<Seq<char>, Json>, text: Seq<char>)
    ensures
        members.contains_key("id"@) && members["id"@] == Json::Text(text) ==> package_in(
            Json::Object(members),
        ).id == Some(text),
        members.contains_key("name"@) && members["name"@] == Json::Text(text) ==> package_in(
            Json::Object(members),
        ).name == Some(text),
        members.contains_key("manifest_path"@) && members["manifest_path"@] == Json::Text(text)
            ==> package_in(Json::Object(members)).manifest_path == Some(text),
        members.contains_key("rust_version"@) && members["rust_version"@] == Json::Text(text)
            ==> package_in(Json::Object(members)).rust_version == Some(text),
        members.contains_key("edition"@) && members["edition"@] == Json::Text(text) ==> package_in(
            Json::Object(members),
        ).edition == Some(text),
        !members.contains_key("id"@) || !(members["id"@] is Text) ==> package_in(
            Json::Object(members),
        ).id is None,
        !members.contains_key("name"@) || !(members["name"@] is Text) ==> package_in(
            Json::Object(members),
        ).name is None,
        !members.contains_key("manifest_path"@) || !(members["manifest_path"@] is Text)
            ==> package_in(Json::Object(members)).manifest_path is None,
        !members.contains_key("rust_version"@) || !(members["rust_version"@] is Text) ==> package_in(
            Json::Object(members),
        ).rust_version is None,
        !members.contains_key("edition"@) || !(members["edition"@] is Text) ==> package_in(
            Json::Object(members),
        ).edition is None,
{
}

/// What is no object tells nothing of a package or a workspace.
pub proof fn lemma_no_object(value: Json)
    requires
        !(value is Object),
    ensures
        package_in(value).id is None,
        package_in(value).name is None,
        package_in(value).manifest_path is None,
        package_in(value).rust_version is None,
        package_in(value).edition is None,
        metadata_in(value).root is None,
        metadata_in(value).default_members.len() == 0,
        metadata_in(value).packages.len() == 0,
{
}

/// The packages of a workspace are the items of one array, in their order, and
/// its root is named in another object. Where these have another form there are
/// none.
pub proof fn lemma_metadata_in(members: Map<Seq<char>, Json>)
    ensures
        members.contains_key("packages"@) && members["packages"@] is Array ==> {
            &&& metadata_in(Json::Object(members)).packages.len()
                == members["packages"@]->Array_0.len()
            &&& forall|i: int|
                0 <= i < members["packages"@]->Array_0.len() ==> #[trigger] metadata_in(
                    Json::Object(members),
                ).packages[i] == package_in(members["packages"@]->Array_0[i])
        },
        !members.contains_key("packages"@) || !(members["packages"@] is Array) ==> metadata_in(
            Json::Object(members),
        ).packages.len() == 0,
        members.contains_key("workspace_default_members"@)
            && members["workspace_default_members"@] is Array ==> metadata_in(
            Json::Object(members),
        ).default_members == texts_among(members["workspace_default_members"@]->Array_0),
        !members.contains_key("workspace_default_members"@)
            || !(members["workspace_default_members"@] is Array) ==> metadata_in(
            Json::Object(members),
        ).default_members.len() == 0,
        !members.contains_key("resolve"@) ==> metadata_in(Json::Object(members)).root is None,
        members.contains_key("resolve"@) ==> metadata_in(Json::Object(members)).root == (
        match members["resolve"@] {
            Json::Object(inner) => if inner.contains_key("root"@) {
                match inner["root"@] {
                    Json::Text(id) => Some(id),
                    _ => None,
                }
            } else {
                None
            },
            _ => None,
        }),
{
}

/// Of JSON values the texts are taken, in their order, and the others passed
/// over.
pub proof fn lemma_texts_among(values: Seq<Json>, value: Json)
    ensures
        texts_among(seq![]).len() == 0,
        value matches Json::Text(text) ==> texts_among(values.push(value)) == texts_among(
            values,
        ).push(text),
        !(value is Text) ==> texts_among(values.push(value)) == texts_among(values),
{
    assert(values.push(value).drop_last() =~= values);
}

/// The search by id finds nothing where no package has it, or a package without
/// an id stands before the first that has.
pub proof fn lemma_no_name_by_id(packages: Seq<PackageView>, id: Seq<char>, at: int)
    requires
        0 <= at <= packages.len(),
        at < packages.len() ==> packages[at].id is None,
        forall|i: int| 0 <= i < at ==> (#[trigger] packages[i]).id != Some(id),
    ensures
        name_by_id(packages, id) is None,
    decreases at,
{
    if at > 0 && packages[0].id is Some {
        assert(packages[0].id != Some(id));
        let rest = packages.skip(1);
        assert forall|i: int| 0 <= i < at - 1 implies (#[trigger] rest[i]).id != Some(id) by {
            assert(rest[i] == packages[i + 1]);
        }
        lemma_no_name_by_id(rest, id, at - 1);
    }
}

/// The first of several ids under which a name is found decides.
pub proof fn lemma_first_name(packages: Seq<PackageView>, ids: Seq<Seq<char>>, at: int)
    requires
        0 <= at <= ids.len(),
        at < ids.len() ==> name_by_id(packages, ids[at]) is Some,
        forall|i: int| 0 <= i < at ==> name_by_id(packages, #[trigger] ids[i]) is None,
    ensures
        at < ids.len() ==> first_name(packages, ids) == name_by_id(packages, ids[at]),
        at == ids.len() ==> first_name(packages, ids) is None,
    decreases at,
{
    if at > 0 {
        assert(name_by_id(packages, ids[0]) is None);
        let rest = ids.skip(1);
        assert forall|i: int| 0 <= i < at - 1 implies name_by_id(packages, #[trigger] rest[i])
            is None by {
            assert(rest[i] == ids[i + 1]);
        }
        lemma_first_name(packages, rest, at - 1);
    }
}

/// The root package names the workspace if it has a name; otherwise the default
/// members are asked in their order.
pub proof fn lemma_declared_name(metadata: MetadataView)
    ensures
        metadata.root is None ==> declared_name(metadata) == first_name(
            metadata.packages,
            metadata.default_members,
        ),
        metadata.root matches Some(id) ==> {
            &&& name_by_id(metadata.packages, id) is Some ==> declared_name(metadata) == name_by_id(
                metadata.packages,
                id,
            )
            &&& name_by_id(metadata.packages, id) is None ==> declared_name(metadata) == first_name(
                metadata.packages,
                metadata.default_members,
            )
        },
{
}

/// The first named package whose manifest is the given one names the workspace:
/// both paths have the same components in their canonical forms.
pub proof fn lemma_name_by_manifest(
    packages: Seq<PackageView>,
    canonical: Seq<Option<Seq<u8>>>,
    manifest: Seq<u8>,
    at: int,
)
    requires
        canonical.len() == packages.len(),
        0 <= at <= packages.len(),
        at < packages.len() ==> packages[at].name is Some && packages[at].manifest_path is Some && (
        canonical[at] matches Some(path) && components(path) == components(manifest)),
        forall|i: int|
            #![trigger packages[i]]
            0 <= i < at ==> packages[i].name is None || packages[i].manifest_path is None || (
            canonical[i] matches Some(path) ==> components(path) != components(manifest)),
    ensures
        at < packages.len() ==> name_by_manifest(packages, canonical, manifest)
            == packages[at].name,
        at == packages.len() ==> name_by_manifest(packages, canonical, manifest) is None,
    decreases at,
{
    if at > 0 {
        assert(!has_manifest(packages[0], canonical[0], manifest));
        let rest = packages.skip(1);
        let paths = canonical.skip(1);
        assert forall|i: int|
            #![trigger rest[i]]
            0 <= i < at - 1 implies rest[i].name is None || rest[i].manifest_path is None || (
        paths[i] matches Some(path) ==> components(path) != components(manifest)) by {
            assert(rest[i] == packages[i + 1]);
            assert(paths[i] == canonical[i + 1]);
        }
        lemma_name_by_manifest(rest, paths, manifest, at - 1);
    }
}

/// Each error has its own words, and those that have a reason end with it.
pub proof fn lemma_messages(reason: String, stderr: Vec<u8>)
    ensures
        MetadataError::ManifestMissing.text() == "Workspace manifest Cargo.toml not found"@,
        MetadataError::NotRun(reason).text() == "Failed to run cargo metadata: "@ + reason@,
        (MetadataError::Failed { status: reason, stderr }).text() == "cargo metadata exited with "@
            + reason@ + ": "@ + crate::text::trimmed(crate::encoding::text_of(stderr@)),
        MetadataError::Unparsable(reason).text() == "Failed to parse cargo metadata output: "@
            + reason@,
        MetadataError::NotCanonical(reason).text() == "Failed to canonicalize workspace manifest: "@
            + reason@,
        MetadataError::NoMatch.text() == "Unable to match workspace manifest to any package"@,
{
}

/// The name of a directory is the last component of its path where that is a
/// name and UTF-8.
pub proof fn lemma_directory_name(dir: Seq<u8>, name: Seq<u8>)
    ensures
        file_name_of(dir) is None ==> directory_name(dir) is None,
        file_name_of(dir) == Some(name) && valid_utf8(name) ==> directory_name(dir) == Some(
            decode_utf8(name),
        ),
        file_name_of(dir) == Some(name) && !valid_utf8(name) ==> directory_name(dir) is None,
{
}

/// The names of packages are those that they have, in their order.
pub proof fn lemma_names_of(packages: Seq<PackageView>, package: PackageView)
    ensures
        names_of(seq![]).len() == 0,
        package.name matches Some(name) ==> names_of(packages.push(package)) == names_of(
            packages,
        ).push(name),
        package.name is None ==> names_of(packages.push(package)) == names_of(packages),
{
    assert(packages.push(package).drop_last() =~= packages);
}

/// The directory of a package is the parent of its manifest's path.
pub proof fn lemma_package_dir(package: PackageView)
    ensures
        package.manifest_path is None ==> package_dir(package) is None,
        package.manifest_path matches Some(path) ==> package_dir(package) == parent_of(
            encode_utf8(path),
        ),
{
}

/// The first named package whose manifest stands in the given directory names
/// it.
pub proof fn lemma_name_at(packages: Seq<PackageView>, dir: Seq<u8>, at: int)
    requires
        0 <= at <= packages.len(),
        at < packages.len() ==> packages[at].name is Some && (package_dir(packages[at]) matches Some(
            found,
        ) && components(found) == components(dir)),
        forall|i: int|
            #![trigger packages[i]]
            0 <= i < at ==> packages[i].name is None || (package_dir(packages[i]) matches Some(found)
                ==> components(found) != components(dir)),
    ensures
        at < packages.len() ==> name_at(packages, dir) == packages[at].name,
        at == packages.len() ==> name_at(packages, dir) is None,
    decreases at,
{
    if at > 0 {
        assert(packages[0].name is None || (package_dir(packages[0]) matches Some(found)
            ==> components(found) != components(dir)));
        let rest = packages.skip(1);
        assert forall|i: int|
            #![trigger rest[i]]
            0 <= i < at - 1 implies rest[i].name is None || (package_dir(rest[i]) matches Some(found)
            ==> components(found) != components(dir)) by {
            assert(rest[i] == packages[i + 1]);
        }
        lemma_name_at(rest, dir, at - 1);
    }
}

/// A file belongs to the package with the deepest directory that it is in, and
/// to the first of several such. Its edition is that of this package.
pub proof fn lemma_edition(packages: Seq<PackageView>, path: Seq<u8>, at: int)
    requires
        0 <= at < packages.len(),
        package_dir(packages[at]) matches Some(dir) && lies_in(path, dir),
        forall|i: int|
            #![trigger packages[i]]
            0 <= i < packages.len() && i != at ==> (package_dir(packages[i]) matches Some(dir)
                ==> lies_in(path, dir) ==> (components(dir).len() < components(
                package_dir(packages[at])->0,
            ).len() || (i > at && components(dir).len() == components(
                package_dir(packages[at])->0,
            ).len()))),
    ensures
        owner_of(packages, path) == Some(at),
        packages[at].edition matches Some(edition) ==> edition_of(packages, path) == edition,
        packages[at].edition is None ==> edition_of(packages, path) == "2024"@,
    decreases packages.len(),
{
    let before = packages.drop_last();
    let last = packages.last();
    assert(last == packages[packages.len() - 1]);
    if at < before.len() {
        assert(before[at] == packages[at]);
        assert forall|i: int|
            #![trigger before[i]]
            0 <= i < before.len() && i != at implies (package_dir(before[i]) matches Some(dir)
            ==> lies_in(path, dir) ==> (components(dir).len() < components(
            package_dir(before[at])->0,
        ).len() || (i > at && components(dir).len() == components(
            package_dir(before[at])->0,
        ).len()))) by {
            assert(before[i] == packages[i]);
        }
        lemma_edition(before, path, at);
    } else {
        lemma_owner(before, path);
        if let Some(i) = owner_of(before, path) {
            assert(before[i] == packages[i]);
        }
    }
}

/// A file that is in the directory of no package belongs to none, and counts as
/// written in the edition 2024.
pub proof fn lemma_no_edition(packages: Seq<PackageView>, path: Seq<u8>)
    requires
        forall|i: int|
            #![trigger packages[i]]
            0 <= i < packages.len() ==> (package_dir(packages[i]) matches Some(dir) ==> !lies_in(
                path,
                dir,
            )),
    ensures
        owner_of(packages, path) is None,
        edition_of(packages, path) == "2024"@,
{
    lemma_owner(packages, path);
    if let Some(at) = owner_of(packages, path) {
        assert(holds(packages[at], path));
    }
}

/// Versions are the same if and only if no two packages differ in theirs; a
/// package that tells none differs from one that does.
pub proof fn lemma_same_rust_version(packages: Seq<PackageView>, package: PackageView)
    ensures
        same_rust_version(seq![]),
        same_rust_version(seq![package]),
        packages.len() > 0 ==> (same_rust_version(packages.push(package)) <==> same_rust_version(
            packages,
        ) && packages[0].rust_version == package.rust_version),
{
    let more = packages.push(package);
    let n = packages.len() as int;
    if packages.len() > 0 {
        assert(more[n] == package);
        assert(more[0] == packages[0]);
        if same_rust_version(more) {
            assert(more[0].rust_version == more[n].rust_version);
            assert forall|i: int, j: int| 0 <= i < n && 0 <= j < n implies (
            #[trigger] packages[i]).rust_version == (#[trigger] packages[j]).rust_version by {
                assert(more[i] == packages[i]);
                assert(more[j] == packages[j]);
            }
        }
        if same_rust_version(packages) && packages[0].rust_version == package.rust_version {
            assert forall|i: int, j: int| 0 <= i < more.len() && 0 <= j < more.len() implies (
            #[trigger] more[i]).rust_version == (#[trigger] more[j]).rust_version by {
                if i < n {
                    assert(more[i] == packages[i]);
                    assert(packages[i].rust_version == packages[0].rust_version);
                }
                if j < n {
                    assert(more[j] == packages[j]);
                    assert(packages[j].rust_version == packages[0].rust_version);
                }
            }
        }
    }
}

/// A package is described by its name, its version and the path of its manifest,
/// and what is missing is called unknown.
pub proof fn lemma_package_line(package: PackageView, text: Seq<char>)
    ensures
        package_line(package) == or_unknown(package.name) + " (Rust "@ + or_unknown(
            package.rust_version,
        ) + ") "@ + or_unknown(package.manifest_path),
        or_unknown(Some(text)) == text,
        or_unknown(None) == "unknown"@,
{
}

/// A text or a path that may be missing is read as what it holds, and as missing
/// where it is.
pub proof fn lemma_missing(text: String, path: Vec<u8>)
    ensures
        opt_view(Some(text)) == Some(text@),
        opt_view(None) is None,
        path_view(Some(path)) == Some(path@),
        path_view(None) is None,
{
}

} // verus!
