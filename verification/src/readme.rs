//! README files: their text, the template each is made from, and where they go.

use crate::encoding::from_utf8_lossy;
use crate::job::Job;
use crate::metadata::{
    directory_of, name_at, package_dir, package_name_at, Metadata, PackageView,
};
use crate::order::Relation;
use crate::paths::{
    below, compare_paths, components, file_name, has_path, is_among, join, path_views,
};
use crate::pre_push::{name_in, package_name};
use crate::templates::{DEFAULT_FOOTER, DEFAULT_HEADER, PLACEHOLDER};
use crate::text::{
    lines_of, occurs_at, occurs_in, replace_all, replaced, same_text, starts_with,
};
use vstd::prelude::*;
use vstd::string::{StrSliceExecFns, StringExecFns};
use vstd::utf8::encode_utf8;

verus! {

/// What a README is made of.
pub struct GenerateReadmeOpts {
    /// The name that stands for the placeholder in the header.
    pub crate_name: String,
    /// The main content.
    pub input: String,
    /// The header template, where the workspace has its own.
    pub header: Option<String>,
    /// The footer, where the workspace has its own.
    pub footer: Option<String>,
}

impl GenerateReadmeOpts {
    /// The header template: that of the workspace, or the built-in one.
    pub open spec fn header_template(self) -> Seq<char> {
        match self.header {
            Some(header) => header@,
            None => DEFAULT_HEADER@,
        }
    }

    /// The footer: that of the workspace, or the built-in one.
    pub open spec fn footer_text(self) -> Seq<char> {
        match self.footer {
            Some(footer) => footer@,
            None => DEFAULT_FOOTER@,
        }
    }

    /// The README: the header with every placeholder replaced by the crate's
    /// name, the content and the footer, with a line feed between each two.
    pub open spec fn readme(self) -> Seq<char> {
        replaced(self.header_template(), PLACEHOLDER@, self.crate_name@) + seq!['\n']
            + self.input@ + seq!['\n'] + self.footer_text()
    }
}

/// The text of a README.
pub fn generate(opts: GenerateReadmeOpts) -> (res: String)
    ensures
        res@ == opts.readme(),
        res@ == replaced(
            match opts.header {
                Some(header) => header@,
                None => DEFAULT_HEADER@,
            },
            "{CRATE}"@,
            opts.crate_name@,
        ) + seq!['\n'] + opts.input@ + seq!['\n'] + match opts.footer {
            Some(footer) => footer@,
            None => DEFAULT_FOOTER@,
        },
{
    let template = match &opts.header {
        Some(header) => header.as_str(),
        None => DEFAULT_HEADER,
    };
    let footer = match &opts.footer {
        Some(footer) => footer.as_str(),
        None => DEFAULT_FOOTER,
    };
    proof {
        reveal_strlit("{CRATE}");
    }
    let mut res = replace_all(template, PLACEHOLDER, opts.crate_name.as_str());
    res.push('\n');
    res.append(opts.input.as_str());
    res.push('\n');
    res.append(footer);
    assert(res@ =~= opts.readme());
    res
}

/// A README ends with the footer that is given, and otherwise with the built-in
/// one, whatever its header, name and content are. Before that stands its
/// content, as it is, between line feeds.
pub proof fn lemma_footer(opts: GenerateReadmeOpts)
    ensures
        opts.footer is None ==> (seq!['\n'] + opts.input@ + seq!['\n']
            + DEFAULT_FOOTER@).is_suffix_of(opts.readme()),
        opts.footer matches Some(footer) ==> (seq!['\n'] + opts.input@ + seq!['\n']
            + footer@).is_suffix_of(opts.readme()),
{
    let all = opts.readme();
    let head = replaced(opts.header_template(), PLACEHOLDER@, opts.crate_name@);
    let end = seq!['\n'] + opts.input@ + seq!['\n'] + opts.footer_text();
    assert(all =~= head + end);
    assert(all.subrange(all.len() - end.len(), all.len() as int) =~= end);
}

/// A README begins with the header that is given, and otherwise with the
/// built-in one, with the placeholder replaced, whatever its footer and content
/// are.
pub proof fn lemma_header(opts: GenerateReadmeOpts)
    ensures
        opts.header is None ==> (replaced(DEFAULT_HEADER@, "{CRATE}"@, opts.crate_name@)
            + seq!['\n'] + opts.input@ + seq!['\n']).is_prefix_of(opts.readme()),
        opts.header matches Some(header) ==> (replaced(header@, "{CRATE}"@, opts.crate_name@)
            + seq!['\n'] + opts.input@ + seq!['\n']).is_prefix_of(opts.readme()),
{
    let all = opts.readme();
    let head = replaced(opts.header_template(), PLACEHOLDER@, opts.crate_name@) + seq!['\n']
        + opts.input@ + seq!['\n'];
    assert(all.subrange(0, head.len() as int) =~= head);
}

/// A header without the placeholder is taken as it stands.
pub proof fn lemma_header_kept(opts: GenerateReadmeOpts)
    requires
        !occurs_in(opts.header_template(), PLACEHOLDER@),
    ensures
        opts.readme() == opts.header_template() + seq!['\n'] + opts.input@ + seq!['\n']
            + opts.footer_text(),
{
    reveal_strlit("{CRATE}");
    crate::text::lemma_replaced_absent(opts.header_template(), PLACEHOLDER@, opts.crate_name@);
}

/// A placeholder in the header gives way to the name of the crate: what stands
/// before the first one is kept, and what follows it is treated likewise.
pub proof fn lemma_placeholder_replaced(
    opts: GenerateReadmeOpts,
    before: Seq<char>,
    after: Seq<char>,
)
    requires
        opts.header_template() == before + PLACEHOLDER@ + after,
        forall|i: int|
            0 <= i < before.len() ==> !occurs_at(opts.header_template(), PLACEHOLDER@, i),
    ensures
        opts.readme() == before + opts.crate_name@ + replaced(
            after,
            PLACEHOLDER@,
            opts.crate_name@,
        ) + seq!['\n'] + opts.input@ + seq!['\n'] + opts.footer_text(),
{
    reveal_strlit("{CRATE}");
    crate::text::lemma_replaced_first(before, PLACEHOLDER@, after, opts.crate_name@);
}

/// The path of a template that belongs to the directory `dir`.
pub open spec fn own_template(dir: Seq<u8>) -> Seq<u8> {
    below(dir, encode_utf8("README.md.in"@))
}

/// The path of the template for `name` in a directory of templates.
pub open spec fn custom_template(dir: Seq<u8>, name: Seq<char>) -> Seq<u8> {
    below(dir, encode_utf8(name + ".md.in"@))
}

/// The templates that a README may be made from, the preferred one first: that
/// in the directory of templates, where one is given, then its own.
pub open spec fn templates_for(
    template_dir: Option<Vec<u8>>,
    name: Seq<char>,
    own: Seq<u8>,
) -> Seq<Seq<u8>> {
    match template_dir {
        Some(dir) => seq![custom_template(dir@, name), own],
        None => seq![own],
    }
}

/// A template in the directory of templates is preferred, and where there is
/// none, or no such directory, a README is made from its own.
pub proof fn lemma_template_priority(
    template_dir: Option<Vec<u8>>,
    name: Seq<char>,
    own: Seq<u8>,
    exist: Seq<bool>,
)
    requires
        exist.len() == templates_for(template_dir, name, own).len(),
    ensures
        match crate::paths::first_of(exist) {
            Some(i) => templates_for(template_dir, name, own)[i] == (if template_dir is Some
                && exist[0] {
                custom_template(template_dir->0@, name)
            } else {
                own
            }),
            None => !exist.last(),
        },
{
    crate::paths::lemma_first_of(exist);
}

fn template_candidates(template_dir: &Option<Vec<u8>>, name: &str, own: Vec<u8>) -> (res: Vec<
    Vec<u8>,
>)
    ensures
        res@.map_values(|p: Vec<u8>| p@) == templates_for(*template_dir, name@, own@),
{
    let mut res: Vec<Vec<u8>> = Vec::new();
    if let Some(dir) = template_dir {
        let file = name.to_owned().concat(".md.in");
        res.push(join(dir.as_slice(), file.as_str().as_bytes_vec().as_slice()));
    }
    res.push(own);
    assert(res@.map_values(|p: Vec<u8>| p@) =~= templates_for(*template_dir, name@, own@));
    res
}

/// Something that stands in the directory of the workspace.
#[derive(Debug)]
pub struct Entry {
    /// Where it stands.
    pub path: Vec<u8>,
    /// It is a directory.
    pub is_dir: bool,
    /// It holds a manifest.
    pub has_manifest: bool,
    /// The text of the manifest, where it can be read.
    pub manifest: Option<String>,
}

impl Entry {
    /// A directory has a name.
    pub open spec fn is_named(self) -> bool {
        self.is_dir ==> crate::paths::file_name_of(self.path@) is Some
    }

    /// The name of a directory.
    pub open spec fn name(self) -> Seq<char> {
        crate::encoding::text_of(crate::paths::file_name_of(self.path@)->0)
    }

    /// The name of the crate in a directory: that of the package there, or else
    /// the one that its manifest gives, or else that of the directory.
    pub open spec fn crate_name(self, packages: Seq<PackageView>) -> Seq<char> {
        match name_at(packages, self.path@) {
            Some(name) => name,
            None => match self.manifest {
                Some(text) => match name_in(lines_of(text@), false) {
                    Some(name) => name,
                    None => self.name(),
                },
                None => self.name(),
            },
        }
    }
}

fn entry_name(entry: &Entry) -> (res: String)
    requires
        entry.is_named(),
        entry.is_dir,
    ensures
        res@ == entry.name(),
{
    match file_name(entry.path.as_slice()) {
        Some(name) => from_utf8_lossy(name.as_slice()),
        None => String::new(),
    }
}

fn entry_crate_name(entry: &Entry, metadata: &Metadata) -> (res: String)
    requires
        entry.is_named(),
        entry.is_dir,
    ensures
        res@ == entry.crate_name(metadata@.packages),
{
    if let Some(name) = package_name_at(metadata, entry.path.as_slice()) {
        return name;
    }
    if let Some(text) = &entry.manifest {
        if let Some(name) = package_name(text.as_str()) {
            return name;
        }
    }
    entry_name(entry)
}

/// The entry is the directory of a crate: it holds a manifest, is not hidden,
/// does not begin with an underscore, and is not where builds go.
pub open spec fn is_crate(entry: Entry) -> bool {
    &&& entry.is_dir
    &&& !occurs_at(entry.name(), "."@, 0)
    &&& !occurs_at(entry.name(), "_"@, 0)
    &&& entry.name() != "target"@
    &&& entry.has_manifest
}

/// Whether an entry is the directory of a crate.
pub fn is_crate_directory(entry: &Entry) -> (res: bool)
    requires
        entry.is_named(),
    ensures
        res == is_crate(*entry),
{
    if !entry.is_dir {
        return false;
    }
    let name = entry_name(entry);
    !starts_with(name.as_str(), ".") && !starts_with(name.as_str(), "_") && !same_text(
        name.as_str(),
        "target",
    ) && entry.has_manifest
}

/// The directories of these packages that are neither the workspace's own nor
/// known, each once.
pub open spec fn further_dirs(
    packages: Seq<PackageView>,
    dir: Seq<u8>,
    known: Seq<Seq<u8>>,
) -> Seq<Seq<u8>>
    decreases packages.len(),
{
    if packages.len() == 0 {
        seq![]
    } else {
        let before = further_dirs(packages.drop_last(), dir, known);
        match package_dir(packages.last()) {
            Some(found) => if components(found) == components(dir) || has_path(known, found)
                || has_path(before, found) {
                before
            } else {
                before.push(found)
            },
            None => before,
        }
    }
}

/// The directory of each package is that of the workspace, known, or among the
/// further ones.
pub proof fn lemma_further_dirs(
    packages: Seq<PackageView>,
    dir: Seq<u8>,
    known: Seq<Seq<u8>>,
    at: int,
)
    requires
        0 <= at < packages.len(),
        package_dir(packages[at]) is Some,
    ensures
        ({
            let found = package_dir(packages[at])->0;
            ||| components(found) == components(dir)
            ||| has_path(known, found)
            ||| has_path(further_dirs(packages, dir, known), found)
        }),
    decreases packages.len(),
{
    let before = packages.drop_last();
    let found = package_dir(packages[at])->0;
    let dirs = further_dirs(packages, dir, known);
    if at < before.len() {
        lemma_further_dirs(before, dir, known, at);
        assert(before[at] == packages[at]);
        let fewer = further_dirs(before, dir, known);
        if has_path(fewer, found) {
            let i = choose|i: int|
                0 <= i < fewer.len() && components(#[trigger] fewer[i]) == components(found);
            assert(dirs[i] == fewer[i]);
        }
    } else if components(found) != components(dir) && !has_path(known, found) && !has_path(
        further_dirs(before, dir, known),
        found,
    ) {
        assert(dirs[dirs.len() - 1] == found);
    }
}

/// The directories of the packages of a workspace that are neither the
/// workspace's own, `dir`, nor known, each once.
pub fn package_directories(metadata: &Metadata, dir: &[u8], known: &Vec<Vec<u8>>) -> (res: Vec<
    Vec<u8>,
>)
    ensures
        path_views(res@) == further_dirs(metadata@.packages, dir@, path_views(known@)),
{
    let ghost all = metadata@.packages;
    let mut res: Vec<Vec<u8>> = Vec::new();
    assert(path_views(res@) =~= further_dirs(all.take(0), dir@, path_views(known@)));
    for i in 0..metadata.packages.len()
        invariant
            all == metadata@.packages,
            path_views(res@) == further_dirs(all.take(i as int), dir@, path_views(known@)),
    {
        let ghost before = path_views(res@);
        assert(all.take(i + 1).drop_last() =~= all.take(i as int));
        assert(all.take(i + 1).last() == metadata.packages@[i as int]@);
        if let Some(found) = directory_of(&metadata.packages[i]) {
            if compare_paths(found.as_slice(), dir) != Relation::Same && !is_among(
                known,
                found.as_slice(),
            ) && !is_among(&res, found.as_slice()) {
                res.push(found);
                assert(path_views(res@) =~= before.push(found@));
            }
        }
    }
    assert(all.take(metadata.packages@.len() as int) =~= all);
    res
}

/// A README that is to be made.
#[derive(Debug)]
pub struct Target {
    /// The name that it is made for.
    pub crate_name: String,
    /// The directory that it goes to.
    pub output_dir: Vec<u8>,
    /// The templates that it may be made from, the preferred one first: the
    /// first of them that exists is the one.
    pub templates: Vec<Vec<u8>>,
}

/// The content of a [`Target`].
#[verifier::ext_equal]
pub struct TargetView {
    pub crate_name: Seq<char>,
    pub output_dir: Seq<u8>,
    pub templates: Seq<Seq<u8>>,
}

impl View for Target {
    type V = TargetView;

    open spec fn view(&self) -> TargetView {
        TargetView {
            crate_name: self.crate_name@,
            output_dir: self.output_dir@,
            templates: self.templates@.map_values(|p: Vec<u8>| p@),
        }
    }
}

/// The README of a crate.
pub open spec fn crate_target(
    entry: Entry,
    template_dir: Option<Vec<u8>>,
    packages: Seq<PackageView>,
) -> TargetView {
    TargetView {
        crate_name: entry.crate_name(packages),
        output_dir: entry.path@,
        templates: templates_for(
            template_dir,
            entry.crate_name(packages),
            own_template(entry.path@),
        ),
    }
}

/// The README of the workspace.
pub open spec fn workspace_target(
    dir: Seq<u8>,
    name: Seq<char>,
    template_dir: Option<Vec<u8>>,
) -> TargetView {
    TargetView {
        crate_name: name,
        output_dir: dir,
        templates: templates_for(template_dir, name, own_template(dir)),
    }
}

/// The READMEs of a workspace: one for each crate, in the order of the entries,
/// and last that of the workspace itself.
pub open spec fn targets_of(
    entries: Seq<Entry>,
    dir: Seq<u8>,
    name: Seq<char>,
    template_dir: Option<Vec<u8>>,
    packages: Seq<PackageView>,
) -> Seq<TargetView> {
    entries.filter(|e: Entry| is_crate(e)).map_values(
        |e: Entry| crate_target(e, template_dir, packages),
    ).push(workspace_target(dir, name, template_dir))
}

/// The READMEs of a workspace: one for each crate, in the order of the entries,
/// and last that of the workspace itself. `dir` is the directory of the
/// workspace and `name` its name; the metadata name its packages.
pub fn readme_targets(
    entries: &Vec<Entry>,
    dir: &[u8],
    name: &str,
    template_dir: &Option<Vec<u8>>,
    metadata: &Metadata,
) -> (res: Vec<Target>)
    requires
        forall|i: int| 0 <= i < entries@.len() ==> (#[trigger] entries@[i]).is_named(),
    ensures
        res@.map_values(|t: Target| t@) == targets_of(
            entries@,
            dir@,
            name@,
            *template_dir,
            metadata@.packages,
        ),
{
    let ghost keep = |e: Entry| is_crate(e);
    let ghost target = |e: Entry| crate_target(e, *template_dir, metadata@.packages);
    let ghost view = |t: Target| t@;
    let file = "README.md.in".as_bytes_vec();
    let mut res: Vec<Target> = Vec::new();
    assert(res@.map_values(view) =~= entries@.take(0).filter(keep).map_values(target)) by {
        reveal(Seq::filter);
    }
    for i in 0..entries.len()
        invariant
            forall|j: int| 0 <= j < entries@.len() ==> (#[trigger] entries@[j]).is_named(),
            file@ == encode_utf8("README.md.in"@),
            keep == (|e: Entry| is_crate(e)),
            target == (|e: Entry| crate_target(e, *template_dir, metadata@.packages)),
            view == (|t: Target| t@),
            res@.map_values(view) == entries@.take(i as int).filter(keep).map_values(target),
    {
        let entry = &entries[i];
        let ghost before = res@.map_values(view);
        proof {
            reveal(Seq::filter);
            assert(entries@.take(i + 1).drop_last() =~= entries@.take(i as int));
            assert(entries@.take(i + 1).last() == *entry);
        }
        if is_crate_directory(entry) {
            let name = entry_crate_name(entry, metadata);
            let own = join(entry.path.as_slice(), file.as_slice());
            let found = Target {
                templates: template_candidates(template_dir, name.as_str(), own),
                crate_name: name,
                output_dir: vstd::slice::slice_to_vec(entry.path.as_slice()),
            };
            assert(found@ =~= crate_target(*entry, *template_dir, metadata@.packages));
            res.push(found);
            assert(res@.map_values(view) =~= before.push(found@));
            assert(entries@.take(i + 1).filter(keep).map_values(target) =~= before.push(found@));
        }
    }
    assert(entries@.take(entries@.len() as int) =~= entries@);
    let ghost before = res@.map_values(view);
    let last = Target {
        crate_name: name.to_owned(),
        output_dir: vstd::slice::slice_to_vec(dir),
        templates: template_candidates(template_dir, name, join(dir, file.as_slice())),
    };
    assert(last@ =~= workspace_target(dir@, name@, *template_dir));
    res.push(last);
    assert(res@.map_values(view) =~= before.push(last@));
    res
}

/// The path of the header that a workspace has of its own.
pub fn header_path(dir: &[u8]) -> (res: Vec<u8>)
    ensures
        res@ == below(dir@, encode_utf8(".facet-dev-templates/readme-header.md"@)),
{
    join(dir, ".facet-dev-templates/readme-header.md".as_bytes_vec().as_slice())
}

/// The path of the footer that a workspace has of its own.
pub fn footer_path(dir: &[u8]) -> (res: Vec<u8>)
    ensures
        res@ == below(dir@, encode_utf8(".facet-dev-templates/readme-footer.md"@)),
{
    join(dir, ".facet-dev-templates/readme-footer.md".as_bytes_vec().as_slice())
}

/// The path of the README of the directory `dir`.
pub fn readme_path(dir: &[u8]) -> (res: Vec<u8>)
    ensures
        res@ == below(dir@, encode_utf8("README.md"@)),
{
    join(dir, "README.md".as_bytes_vec().as_slice())
}

/// The job that writes the README of the directory `dir`, where `old_content`
/// is what it holds now, if it exists.
pub fn readme_job(dir: &[u8], opts: GenerateReadmeOpts, old_content: Option<Vec<u8>>) -> (res: Job)
    ensures
        res.path@ == below(dir@, encode_utf8("README.md"@)),
        res.old_content == old_content,
        res.new_content@ == encode_utf8(opts.readme()),
        !res.executable,
{
    Job {
        path: readme_path(dir),
        old_content,
        new_content: generate(opts).as_str().as_bytes_vec(),
        executable: false,
    }
}

/// What is read of a target is what it holds.
pub proof fn lemma_target_view(target: Target)
    ensures
        target@.crate_name == target.crate_name@,
        target@.output_dir == target.output_dir@,
        target@.templates.len() == target.templates@.len(),
        forall|i: int|
            0 <= i < target.templates@.len() ==> #[trigger] target@.templates[i]
                == target.templates@[i]@,
{
}

/// Without a directory of templates a README has one, its own. With one, the
/// file named after the crate there comes before it.
pub proof fn lemma_templates(dir: Vec<u8>, name: Seq<char>, own: Seq<u8>)
    ensures
        templates_for(None, name, own) == seq![own],
        templates_for(Some(dir), name, own) == seq![below(dir@, encode_utf8(name + ".md.in"@)), own],
        own_template(own) == below(own, encode_utf8("README.md.in"@)),
{
}

/// An entry is the directory of a crate if and only if it is a directory that
/// holds a manifest, and its name is not `target` and begins neither with a full
/// stop nor with an underscore.
pub proof fn lemma_crate_directory(entry: Entry)
    ensures
        is_crate(entry) <==> entry.is_dir && entry.has_manifest && entry.name() != "target"@ && (
        entry.name().len() > 0 ==> entry.name()[0] != '.' && entry.name()[0] != '_'),
{
    reveal_strlit(".");
    reveal_strlit("_");
    crate::text::lemma_occurs_at(entry.name(), "."@, 0);
    crate::text::lemma_occurs_at(entry.name(), "_"@, 0);
    assert("."@[0] == '.' && "_"@[0] == '_');
    if entry.name().len() > 0 {
        if entry.name()[0] == '.' {
            assert(occurs_at(entry.name(), "."@, 0));
        }
        if entry.name()[0] == '_' {
            assert(occurs_at(entry.name(), "_"@, 0));
        }
        if occurs_at(entry.name(), "."@, 0) {
            assert("."@[0] == entry.name()[0]);
        }
        if occurs_at(entry.name(), "_"@, 0) {
            assert("_"@[0] == entry.name()[0]);
        }
    }
}

/// The name of a directory is the text of the last component of its path, and
/// a crate is named by the metadata, else by its manifest, else by that.
pub proof fn lemma_entry_name(entry: Entry, packages: Seq<PackageView>, name: Seq<u8>)
    requires
        crate::paths::file_name_of(entry.path@) == Some(name),
    ensures
        entry.is_named(),
        entry.name() == crate::encoding::text_of(name),
        name_at(packages, entry.path@) matches Some(told) ==> entry.crate_name(packages) == told,
        name_at(packages, entry.path@) is None ==> {
            &&& entry.manifest is None ==> entry.crate_name(packages) == entry.name()
            &&& entry.manifest matches Some(text) ==> {
                &&& name_in(lines_of(text@), false) matches Some(read) ==> entry.crate_name(
                    packages,
                ) == read
                &&& name_in(lines_of(text@), false) is None ==> entry.crate_name(packages)
                    == entry.name()
            }
        },
{
}

/// The last README is that of the workspace. A further entry adds one before it
/// if and only if it is the directory of a crate: one that goes to that
/// directory, and whose own template stands there.
pub proof fn lemma_targets(
    entries: Seq<Entry>,
    entry: Entry,
    dir: Seq<u8>,
    name: Seq<char>,
    template_dir: Option<Vec<u8>>,
    packages: Seq<PackageView>,
)
    ensures
        ({
            let few = targets_of(entries, dir, name, template_dir, packages);
            let more = targets_of(entries.push(entry), dir, name, template_dir, packages);
            &&& few.len() > 0
            &&& few.last().crate_name == name
            &&& few.last().output_dir == dir
            &&& few.last().templates == templates_for(
                template_dir,
                name,
                below(dir, encode_utf8("README.md.in"@)),
            )
            &&& !is_crate(entry) ==> more == few
            &&& is_crate(entry) ==> {
                &&& more.len() == few.len() + 1
                &&& more.take(few.len() - 1) == few.take(few.len() - 1)
                &&& more.last() == few.last()
                &&& more[few.len() - 1].crate_name == entry.crate_name(packages)
                &&& more[few.len() - 1].output_dir == entry.path@
                &&& more[few.len() - 1].templates == templates_for(
                    template_dir,
                    entry.crate_name(packages),
                    below(entry.path@, encode_utf8("README.md.in"@)),
                )
            }
        }),
        targets_of(seq![], dir, name, template_dir, packages).len() == 1,
{
    reveal(Seq::filter);
    let keep = |e: Entry| is_crate(e);
    let target = |e: Entry| crate_target(e, template_dir, packages);
    let few = targets_of(entries, dir, name, template_dir, packages);
    let more = targets_of(entries.push(entry), dir, name, template_dir, packages);
    assert(entries.push(entry).drop_last() =~= entries);
    let kept = entries.filter(keep);
    assert(few =~= kept.map_values(target).push(few.last()));
    if is_crate(entry) {
        assert(entries.push(entry).filter(keep) == kept.push(entry));
        assert(kept.push(entry).map_values(target) =~= kept.map_values(target).push(target(entry)));
        assert(more =~= kept.map_values(target).push(target(entry)).push(few.last()));
        assert(more.take(few.len() - 1) =~= few.take(few.len() - 1));
    }
}

/// The further directories are directories of packages, in the order of these.
/// None is that of the workspace or known, and none occurs twice.
pub proof fn lemma_further_dirs_sound(
    packages: Seq<PackageView>,
    dir: Seq<u8>,
    known: Seq<Seq<u8>>,
) -> (from: Seq<int>)
    ensures
        ({
            let dirs = further_dirs(packages, dir, known);
            &&& from.len() == dirs.len()
            &&& forall|i: int|
                0 <= i < dirs.len() ==> 0 <= #[trigger] from[i] < packages.len() && package_dir(
                    packages[from[i]],
                ) == Some(dirs[i])
            &&& forall|i: int, j: int|
                0 <= i < j < dirs.len() ==> #[trigger] from[i] < #[trigger] from[j]
            &&& forall|i: int|
                0 <= i < dirs.len() ==> components(#[trigger] dirs[i]) != components(dir)
                    && !has_path(known, dirs[i])
            &&& forall|i: int, j: int|
                0 <= i < j < dirs.len() ==> components(#[trigger] dirs[i]) != components(
                    #[trigger] dirs[j],
                )
        }),
    decreases packages.len(),
{
    if packages.len() == 0 {
        Seq::empty()
    } else {
        let before = packages.drop_last();
        let few = further_dirs(before, dir, known);
        let dirs = further_dirs(packages, dir, known);
        let known_from = lemma_further_dirs_sound(before, dir, known);
        let from = if dirs.len() == few.len() {
            known_from
        } else {
            known_from.push(packages.len() - 1)
        };
        assert forall|i: int| 0 <= i < dirs.len() implies 0 <= #[trigger] from[i] < packages.len()
            && package_dir(packages[from[i]]) == Some(dirs[i]) by {
            if i < few.len() {
                assert(known_from[i] == from[i]);
                assert(before[from[i]] == packages[from[i]]);
            }
        }
        assert forall|i: int, j: int| 0 <= i < j < dirs.len() implies #[trigger] from[i]
            < #[trigger] from[j] by {
            assert(known_from[i] == from[i]);
            if j < few.len() {
                assert(known_from[j] == from[j]);
            }
        }
        assert forall|i: int| 0 <= i < dirs.len() implies components(#[trigger] dirs[i])
            != components(dir) && !has_path(known, dirs[i]) by {
            if i < few.len() {
                assert(few[i] == dirs[i]);
            }
        }
        assert forall|i: int, j: int| 0 <= i < j < dirs.len() implies components(#[trigger] dirs[i])
            != components(#[trigger] dirs[j]) by {
            assert(few[i] == dirs[i]);
            if j < few.len() {
                assert(few[j] == dirs[j]);
            }
        }
        from
    }
}

/// The directory of a further package is added behind the others if and only if
/// it is not that of the workspace, known, or one of them.
pub proof fn lemma_further_dirs_step(
    packages: Seq<PackageView>,
    package: PackageView,
    dir: Seq<u8>,
    known: Seq<Seq<u8>>,
)
    ensures
        further_dirs(seq![], dir, known).len() == 0,
        package_dir(package) is None ==> further_dirs(packages.push(package), dir, known)
            == further_dirs(packages, dir, known),
        package_dir(package) matches Some(found) ==> {
            let few = further_dirs(packages, dir, known);
            let more = further_dirs(packages.push(package), dir, known);
            if components(found) != components(dir) && !has_path(known, found) && !has_path(
                few,
                found,
            ) {
                more == few.push(found)
            } else {
                more == few
            }
        },
{
    assert(packages.push(package).drop_last() =~= packages);
}

} // verus!
