//! Builds each package's `composer.json`.

use vstd::prelude::*;

use crate::collections::StringMap;
use crate::collections::StringSet;
use crate::collections::ascending;
use crate::extract_packages::copy::component_dir_name;
use crate::extract_packages::copy::dir_name;
use crate::extract_packages::json::JsonObject;
use crate::extract_packages::json::Members;
use crate::extract_packages::json::contains_member;
use crate::extract_packages::json::empty_object;
use crate::extract_packages::json::has_member;
use crate::extract_packages::json::insert_object;
use crate::extract_packages::json::insert_text;
use crate::extract_packages::json::insert_texts;
use crate::extract_packages::json::json_array;
use crate::extract_packages::json::json_members;
use crate::extract_packages::json::json_object;
use crate::extract_packages::json::json_pretty;
use crate::extract_packages::json::json_string;
use crate::extract_packages::json::member_names;
use crate::extract_packages::json::new_member_comes_last;
use crate::extract_packages::json::object_members;
use crate::extract_packages::json::parse_object;
use crate::extract_packages::json::pretty;
use crate::extract_packages::json::with_member;
use crate::moodle::entrypoints::BootstrapKind;
use crate::moodle::entrypoints::FileClassification;
use crate::moodle::entrypoints::str_of;
use crate::moodle::resolver::ComponentResolver;
use crate::moodle::resolver::Directories;
use crate::moodle::resolver::ROOT_COMPONENT;
use crate::moodle::resolver::resolution;
use crate::text::concat;
use crate::text::concat3;
use crate::text::copy;
use crate::text::precedes;
use crate::text::precedes_is_asymmetric;
use crate::text::same;
use crate::text::texts;
use crate::text::trim_start;
use crate::text::trim_start_of;

verus! {

/// The vendor of every package.
pub const VENDOR: &'static str = "moodle";

/// The SPDX identifier Moodle's own upstream `composer.json` uses.
pub const LICENSE: &'static str = "GPL-3.0-or-later";

/// The directory and package name of the metapackage. It stands for no component, so it is spelled
/// out here rather than derived.
pub const METAPACKAGE_DIR_NAME: &'static str = "moodle-standard";

/// One component's bootstrap-relevant files, grouped by kind, in the shape
/// `extra.moodle.entrypoints` takes. Each path is relative to the component's own root, with no
/// leading slash.
///
/// Only two buckets: [`BootstrapKind::Cli`] gets its own, since a sysadmin or cron job invokes
/// those directly and needs to know which files that is true of. Everything else lands in `other`:
/// this metadata exists purely to tell a Composer plugin which files must be physically placed
/// back at a fixed location, and [`BootstrapKind::Other`] and [`BootstrapKind::BootstrapDependency`]
/// need exactly that, for exactly the same reason (neither can be found through `core\component`
/// once split into a package).
#[derive(Debug)]
pub struct Entrypoints {
    pub cli: Vec<String>,
    pub other: Vec<String>,
}

/// A component's bootstrap-relevant files, as texts.
pub struct EntrypointsView {
    pub cli: Seq<Seq<char>>,
    pub other: Seq<Seq<char>>,
}

impl EntrypointsView {
    /// Whether no file is listed.
    pub open spec fn none(self) -> bool {
        self.cli.len() == 0 && self.other.len() == 0
    }
}

impl View for Entrypoints {
    type V = EntrypointsView;

    open spec fn view(&self) -> EntrypointsView {
        EntrypointsView { cli: texts(self.cli@), other: texts(self.other@) }
    }
}

impl Entrypoints {
    /// No files at all.
    pub fn new() -> (r: Self)
        ensures
            r@.none(),
    {
        Entrypoints { cli: Vec::new(), other: Vec::new() }
    }

    /// Whether no file is listed.
    pub fn is_empty(&self) -> (r: bool)
        ensures
            r == self@.none(),
    {
        self.cli.len() == 0 && self.other.len() == 0
    }

    /// The same files again.
    pub fn duplicate(&self) -> (r: Self)
        ensures
            r@ == self@,
    {
        let r = Entrypoints { cli: copied(&self.cli), other: copied(&self.other) };
        r
    }
}

fn copied(list: &Vec<String>) -> (r: Vec<String>)
    ensures
        texts(r@) == texts(list@),
{
    let mut r: Vec<String> = Vec::new();
    let mut i: usize = 0;
    while i < list.len()
        invariant
            i <= list.len(),
            texts(r@) == texts(list@).take(i as int),
        decreases list.len() - i,
    {
        let ghost before = texts(r@);
        r.push(copy(&list[i]));
        assert(texts(r@) =~= before.push(list@[i as int]@));
        assert(texts(list@).take(i as int).push(list@[i as int]@) =~= texts(list@).take(i + 1));
        i += 1;
    }
    assert(texts(list@).take(i as int) =~= texts(list@));
    r
}

/// The component that a file is packaged with and its path in the package: none for a file that no
/// real component owns, nor for a component's own directory.
pub open spec fn packaged_at(dirs: Directories, file: Seq<char>) -> Option<(Seq<char>, Seq<char>)> {
    match resolution(dirs, file) {
        Some(r) => if r.path_in_component.len() > 0 && r.component != ROOT_COMPONENT@ {
            Some((r.component, trim_start(r.path_in_component, '/')))
        } else {
            None
        },
        None => None,
    }
}

/// The files among `entry_points` that are packaged with `component`, in order: those for the
/// command line, or the others.
pub open spec fn packaged_files(
    dirs: Directories,
    entry_points: Seq<FileClassification>,
    component: Seq<char>,
    cli: bool,
) -> Seq<Seq<char>>
    decreases entry_points.len(),
{
    if entry_points.len() == 0 {
        Seq::<Seq<char>>::empty()
    } else {
        let rest = packaged_files(dirs, entry_points.drop_last(), component, cli);
        match packaged_at(dirs, entry_points.last().file@) {
            Some(place) => if place.0 == component && cli == (entry_points.last().kind == BootstrapKind::Cli) {
                rest.push(place.1)
            } else {
                rest
            },
            None => rest,
        }
    }
}

/// The files among `entry_points` that are packaged with `component`.
pub open spec fn entrypoints_of(
    dirs: Directories,
    entry_points: Seq<FileClassification>,
    component: Seq<char>,
) -> EntrypointsView {
    EntrypointsView {
        cli: packaged_files(dirs, entry_points, component, true),
        other: packaged_files(dirs, entry_points, component, false),
    }
}

/// Whether `grouped` holds exactly the components that one of `entry_points` is packaged with, each
/// with its files.
pub open spec fn is_grouping(
    grouped: Map<Seq<char>, Entrypoints>,
    dirs: Directories,
    entry_points: Seq<FileClassification>,
) -> bool {
    &&& forall|c: Seq<char>| #[trigger]
        grouped.contains_key(c) == !entrypoints_of(dirs, entry_points, c).none()
    &&& forall|c: Seq<char>| #[trigger]
        grouped.contains_key(c) ==> grouped[c]@ == entrypoints_of(dirs, entry_points, c)
}

/// Groups `entry_points` by which component each one resolves into, without the leading slash of a
/// path within a component: composer.json wants a plain relative path. Entries resolving into
/// `root` (or not resolving to a real, non-empty path within a component at all) are dropped:
/// `moodle-root` does not carry this piece of metadata.
pub fn group_by_component(entry_points: &[FileClassification], resolver: &ComponentResolver) -> (grouped: StringMap<
    Entrypoints,
>)
    ensures
        is_grouping(grouped@, resolver.directories(), entry_points@),
        grouped.valid(),
{
    let ghost dirs = resolver.directories();
    let mut grouped: StringMap<Entrypoints> = StringMap::new();
    let mut i: usize = 0;
    while i < entry_points.len()
        invariant
            i <= entry_points.len(),
            dirs == resolver.directories(),
            is_grouping(grouped@, dirs, entry_points@.take(i as int)),
            grouped.valid(),
        decreases entry_points.len() - i,
    {
        let entry = &entry_points[i];
        let ghost done = entry_points@.take(i as int);
        let ghost next = entry_points@.take(i + 1);
        let ghost before = grouped@;
        assert(next.drop_last() =~= done);
        assert(next.last() == *entry);
        let mut packaged = false;
        if let Some(found) = resolver.resolve(&entry.file) {
            if !found.path_in_component.as_str().is_empty() && !same(&found.component, ROOT_COMPONENT) {
                packaged = true;
                let path = trim_start_of(&found.path_in_component, '/');
                let mut bucket = match grouped.get(&found.component) {
                    Some(bucket) => bucket.duplicate(),
                    None => Entrypoints::new(),
                };
                let ghost old_bucket = bucket@;
                assert(old_bucket.cli =~= packaged_files(dirs, done, found.component@, true));
                assert(old_bucket.other =~= packaged_files(dirs, done, found.component@, false));
                assert(packaged_at(dirs, entry.file@) == Some((found.component@, path@)));
                let ghost text = path@;
                match entry.kind {
                    BootstrapKind::Cli => {
                        bucket.cli.push(path);
                        assert(bucket@.cli =~= old_bucket.cli.push(text));
                        assert(bucket@.other =~= old_bucket.other);
                    },
                    BootstrapKind::Other | BootstrapKind::BootstrapDependency => {
                        bucket.other.push(path);
                        assert(bucket@.cli =~= old_bucket.cli);
                        assert(bucket@.other =~= old_bucket.other.push(text));
                    },
                }
                assert(bucket@ == entrypoints_of(dirs, next, found.component@));
                let ghost component = found.component@;
                grouped.insert(found.component, bucket);
                assert forall|c: Seq<char>| c != component implies #[trigger] entrypoints_of(dirs, next, c)
                    == entrypoints_of(dirs, done, c) by {}
                assert(is_grouping(grouped@, dirs, next));
            }
        }
        proof {
            if !packaged {
                assert(packaged_at(dirs, entry.file@) is None);
                assert forall|c: Seq<char>| #[trigger] entrypoints_of(dirs, next, c) == entrypoints_of(dirs, done, c) by {}
            }
        }
        i += 1;
    }
    assert(entry_points@.take(i as int) =~= entry_points@);
    grouped
}

/// No entry point is packaged with the root pseudo-component.
pub proof fn root_has_no_entry_points(
    grouped: Map<Seq<char>, Entrypoints>,
    dirs: Directories,
    entry_points: Seq<FileClassification>,
)
    requires
        is_grouping(grouped, dirs, entry_points),
    ensures
        !grouped.contains_key(ROOT_COMPONENT@),
{
    nothing_is_packaged_with_root(dirs, entry_points, true);
    nothing_is_packaged_with_root(dirs, entry_points, false);
}

proof fn nothing_is_packaged_with_root(dirs: Directories, entry_points: Seq<FileClassification>, cli: bool)
    ensures
        packaged_files(dirs, entry_points, ROOT_COMPONENT@, cli).len() == 0,
    decreases entry_points.len(),
{
    if entry_points.len() > 0 {
        nothing_is_packaged_with_root(dirs, entry_points.drop_last(), cli);
    }
}

/// The name of the package in directory `dir`.
pub open spec fn vendored(dir: Seq<char>) -> Seq<char> {
    VENDOR@ + "/"@ + dir
}

/// The name of a component's package.
pub open spec fn spec_package_name(component: Seq<char>) -> Seq<char> {
    vendored(dir_name(component))
}

/// `moodle/moodle-<component>`: the package name every component's own `composer.json` (real or
/// `root`) is written with, and that the metapackage requires it by.
pub fn package_name(component: &str) -> (r: String)
    ensures
        r@ == spec_package_name(component@),
{
    concat3(VENDOR, "/", &component_dir_name(component))
}

/// Where the classes of a component's package are loaded from: its own from `classes/`; and those
/// that support running tests, which are part of core, where the package is core's.
///
/// Upstream declares the latter under `autoload-dev`, which Composer only consults for the root
/// package of a project. Core is a dependency once it is a package of its own, so its test support
/// would never be loadable unless it is declared here.
pub open spec fn class_dirs(component: Seq<char>) -> Members {
    let own = seq![(component + "\\"@, json_string("classes/"@))];
    if component == "core"@ {
        own + seq![
            ("core_phpunit\\"@, json_string("phpunit/classes/"@)),
            ("core_testing\\"@, json_string("testing/classes/"@)),
        ]
    } else {
        own
    }
}

/// The entry points of a package, without the lists that are empty.
pub open spec fn entrypoint_members(entry_points: EntrypointsView) -> Members {
    let cli = if entry_points.cli.len() > 0 {
        seq![("cli"@, json_array(entry_points.cli))]
    } else {
        Seq::<(Seq<char>, Seq<char>)>::empty()
    };
    if entry_points.other.len() > 0 {
        cli.push(("other"@, json_array(entry_points.other)))
    } else {
        cli
    }
}

/// What is said of a package for Moodle's sake: its component, unless its `version.php` names it, and
/// its entry points, if it has any.
pub open spec fn moodle_members(
    component: Seq<char>,
    has_version_php: bool,
    entry_points: Option<EntrypointsView>,
) -> Members {
    let named = if has_version_php {
        Seq::<(Seq<char>, Seq<char>)>::empty()
    } else {
        seq![("component"@, json_string(component))]
    };
    match entry_points {
        Some(e) => if e.none() {
            named
        } else {
            named.push(("entrypoints"@, json_object(entrypoint_members(e))))
        },
        None => named,
    }
}

/// The members of a component's `composer.json`.
pub open spec fn package_members(
    component: Seq<char>,
    has_version_php: bool,
    entry_points: Option<EntrypointsView>,
) -> Members {
    let common = seq![
        ("name"@, json_string(spec_package_name(component))),
        ("type"@, json_string("moodle-component"@)),
        ("license"@, json_string(LICENSE@)),
        ("autoload"@, json_object(seq![("psr-4"@, json_object(class_dirs(component)))])),
    ];
    let moodle = moodle_members(component, has_version_php, entry_points);
    if moodle.len() == 0 {
        common
    } else {
        common.push(("extra"@, json_object(seq![("moodle"@, json_object(moodle))])))
    }
}

/// Optional entry points, as texts.
pub open spec fn entrypoints_view(entry_points: Option<&Entrypoints>) -> Option<EntrypointsView> {
    match entry_points {
        Some(e) => Some(e@),
        None => None,
    }
}

/// The names in a `composer.json` differ.
proof fn names_differ()
    ensures
        "name"@ != "type"@,
        "name"@ != "license"@,
        "name"@ != "autoload"@,
        "name"@ != "extra"@,
        "name"@ != "require"@,
        "type"@ != "license"@,
        "type"@ != "autoload"@,
        "type"@ != "extra"@,
        "type"@ != "require"@,
        "license"@ != "autoload"@,
        "license"@ != "extra"@,
        "license"@ != "require"@,
        "autoload"@ != "extra"@,
        "cli"@ != "other"@,
        "component"@ != "entrypoints"@,
        "core\\"@ != "core_phpunit\\"@,
        "core\\"@ != "core_testing\\"@,
        "core_phpunit\\"@ != "core_testing\\"@,
{
    reveal_strlit("name");
    reveal_strlit("type");
    reveal_strlit("license");
    reveal_strlit("autoload");
    reveal_strlit("extra");
    reveal_strlit("require");
    reveal_strlit("cli");
    reveal_strlit("other");
    reveal_strlit("component");
    reveal_strlit("entrypoints");
    reveal_strlit("core\\");
    reveal_strlit("core_phpunit\\");
    reveal_strlit("core_testing\\");
    assert("name"@[0] == 'n' && "type"@[0] == 't' && "license"@[0] == 'l' && "require"@[0] == 'r');
    assert("autoload"@[0] == 'a' && "extra"@[0] == 'e' && "cli"@[0] == 'c' && "other"@[0] == 'o');
    assert("component"@[0] == 'c' && "entrypoints"@[0] == 'e');
    assert("core\\"@.len() == 5 && "core_phpunit\\"@.len() == 13);
    assert("core_phpunit\\"@[5] == 'p' && "core_testing\\"@[5] == 't');
}

fn class_dirs_object(component: &str) -> (r: JsonObject)
    ensures
        object_members(r) == class_dirs(component@),
{
    let mut r = empty_object();
    let namespace = concat(component, "\\");
    insert_text(&mut r, &namespace, "classes/");
    proof {
        new_member_comes_last(Seq::empty(), namespace@, json_string("classes/"@));
        assert(object_members(r) =~= seq![(namespace@, json_string("classes/"@))]);
    }
    if same(component, "core") {
        proof {
            names_differ();
            reveal_strlit("core");
            reveal_strlit("\\");
            reveal_strlit("core\\");
            assert(namespace@ =~= "core\\"@);
        }
        let ghost own = object_members(r);
        insert_text(&mut r, "core_phpunit\\", "phpunit/classes/");
        proof {
            new_member_comes_last(own, "core_phpunit\\"@, json_string("phpunit/classes/"@));
        }
        let ghost two = object_members(r);
        insert_text(&mut r, "core_testing\\", "testing/classes/");
        proof {
            new_member_comes_last(two, "core_testing\\"@, json_string("testing/classes/"@));
            assert(object_members(r) =~= class_dirs(component@));
        }
    }
    r
}

fn entrypoints_object(entry_points: &Entrypoints) -> (r: JsonObject)
    ensures
        object_members(r) == entrypoint_members(entry_points@),
{
    proof {
        names_differ();
    }
    let mut r = empty_object();
    if entry_points.cli.len() > 0 {
        insert_texts(&mut r, "cli", &entry_points.cli);
        proof {
            new_member_comes_last(Seq::empty(), "cli"@, json_array(entry_points@.cli));
            assert(object_members(r) =~= seq![("cli"@, json_array(entry_points@.cli))]);
        }
    }
    let ghost cli = object_members(r);
    if entry_points.other.len() > 0 {
        insert_texts(&mut r, "other", &entry_points.other);
        proof {
            new_member_comes_last(cli, "other"@, json_array(entry_points@.other));
        }
    }
    r
}

/// What is said of a package for Moodle's sake; `None` where there is nothing to say.
fn moodle_object(component: &str, has_version_php: bool, entry_points: Option<&Entrypoints>) -> (r: Option<
    JsonObject,
>)
    ensures
        r is None == (moodle_members(component@, has_version_php, entrypoints_view(entry_points)).len() == 0),
        r matches Some(o) ==> object_members(o) == moodle_members(
            component@,
            has_version_php,
            entrypoints_view(entry_points),
        ),
{
    proof {
        names_differ();
    }
    let mut r = empty_object();
    let mut empty = true;
    if !has_version_php {
        insert_text(&mut r, "component", component);
        empty = false;
        proof {
            new_member_comes_last(Seq::empty(), "component"@, json_string(component@));
            assert(object_members(r) =~= seq![("component"@, json_string(component@))]);
        }
    }
    let ghost named = object_members(r);
    if let Some(entry_points) = entry_points {
        if !entry_points.is_empty() {
            insert_object(&mut r, "entrypoints", entrypoints_object(entry_points));
            empty = false;
            proof {
                new_member_comes_last(named, "entrypoints"@, json_object(entrypoint_members(entry_points@)));
            }
        }
    }
    if empty {
        None
    } else {
        Some(r)
    }
}

/// An object with a single member, itself an object.
fn object_of(name: &str, value: JsonObject) -> (r: JsonObject)
    ensures
        object_members(r) == seq![(name@, json_object(object_members(value)))],
{
    let ghost text = json_object(object_members(value));
    let mut r = empty_object();
    insert_object(&mut r, name, value);
    proof {
        new_member_comes_last(Seq::empty(), name@, text);
        assert(object_members(r) =~= seq![(name@, text)]);
    }
    r
}

/// The members every package made from scratch begins with.
fn headed_object(name: &str, package_type: &str) -> (r: JsonObject)
    ensures
        object_members(r) == seq![
            ("name"@, json_string(name@)),
            ("type"@, json_string(package_type@)),
            ("license"@, json_string(LICENSE@)),
        ],
{
    proof {
        names_differ();
    }
    let mut r = empty_object();
    insert_text(&mut r, "name", name);
    proof {
        new_member_comes_last(Seq::empty(), "name"@, json_string(name@));
    }
    let ghost one = object_members(r);
    insert_text(&mut r, "type", package_type);
    proof {
        new_member_comes_last(one, "type"@, json_string(package_type@));
    }
    let ghost two = object_members(r);
    insert_text(&mut r, "license", LICENSE);
    proof {
        new_member_comes_last(two, "license"@, json_string(LICENSE@));
        assert(object_members(r) =~= seq![
            ("name"@, json_string(name@)),
            ("type"@, json_string(package_type@)),
            ("license"@, json_string(LICENSE@)),
        ]);
    }
    r
}

/// The object in `component`'s `composer.json`, for a real component only; that of `root` starts from
/// Moodle's own upstream file rather than from scratch, see [`complete_root`].
///
/// `extra.moodle.component` is written only when the package has no `version.php` of its own: a
/// plugin can be named from its own `version.php` at runtime, and setting `extra.moodle.component`
/// as well is flagged and ignored by Moodle's Composer plugin. A subsystem (e.g. `core_completion`)
/// has no `version.php` to read, so its component name has to come from here instead. `extra` itself
/// is omitted entirely when it would otherwise end up empty. `extra.moodle.entrypoints` is likewise
/// omitted (not written as an empty object) when `entry_points` is `None` or empty.
pub fn package_object(component: &str, has_version_php: bool, entry_points: Option<&Entrypoints>) -> (r: JsonObject)
    requires
        component@ != ROOT_COMPONENT@,
    ensures
        object_members(r) == package_members(component@, has_version_php, entrypoints_view(entry_points)),
{
    proof {
        names_differ();
    }
    let mut r = headed_object(&package_name(component), "moodle-component");
    let ghost head = object_members(r);
    let autoload = object_of("psr-4", class_dirs_object(component));
    let ghost loaded = json_object(object_members(autoload));
    insert_object(&mut r, "autoload", autoload);
    proof {
        new_member_comes_last(head, "autoload"@, loaded);
    }
    let ghost common = object_members(r);
    if let Some(moodle) = moodle_object(component, has_version_php, entry_points) {
        let extra = object_of("moodle", moodle);
        let ghost said = json_object(object_members(extra));
        insert_object(&mut r, "extra", extra);
        proof {
            new_member_comes_last(common, "extra"@, said);
        }
    }
    assert(object_members(r) =~= package_members(component@, has_version_php, entrypoints_view(entry_points)));
    r
}

/// The text of a `composer.json`: the object, indented, and a line feed.
pub open spec fn json_file(members: Members) -> Seq<char> {
    json_pretty(members) + "\n"@
}

fn file_of(object: &JsonObject) -> (r: String)
    ensures
        r@ == json_file(object_members(*object)),
{
    concat(&pretty(object), "\n")
}

/// The text of `component`'s `composer.json`: see [`package_object`].
pub fn package_json(component: &str, has_version_php: bool, entry_points: Option<&Entrypoints>) -> (r: String)
    requires
        component@ != ROOT_COMPONENT@,
    ensures
        r@ == json_file(package_members(component@, has_version_php, entrypoints_view(entry_points))),
{
    file_of(&package_object(component, has_version_php, entry_points))
}

/// The members of `moodle-root`'s `composer.json`, given those of the upstream file.
pub open spec fn root_members(upstream: Members) -> Members {
    let named = with_member(upstream, "name"@, json_string(spec_package_name(ROOT_COMPONENT@)));
    let typed = with_member(named, "type"@, json_string("moodle-root"@));
    if has_member(typed, "license"@) {
        typed
    } else {
        with_member(typed, "license"@, json_string(LICENSE@))
    }
}

/// The object in `moodle-root`'s `composer.json`: that of the upstream file with its `name` and `type`
/// overwritten in place and a license if it has none. Everything else (`require`, `require-dev`,
/// `autoload`, `autoload-dev`, `provide`, ...) is exactly as upstream has it, key order included.
pub fn complete_root(upstream: JsonObject) -> (r: JsonObject)
    ensures
        object_members(r) == root_members(object_members(upstream)),
{
    let mut r = upstream;
    insert_text(&mut r, "name", &package_name(ROOT_COMPONENT));
    insert_text(&mut r, "type", "moodle-root");
    if !contains_member(&r, "license") {
        insert_text(&mut r, "license", LICENSE);
    }
    r
}

/// The members of the upstream file: none where there is no such file, or it holds no JSON object.
pub open spec fn upstream_members(upstream: Option<Seq<char>>) -> Members {
    match upstream {
        Some(text) => match json_members(text) {
            Some(members) => members,
            None => Seq::empty(),
        },
        None => Seq::empty(),
    }
}

/// The text of `moodle-root`'s `composer.json`. The copy places Moodle's own upstream `composer.json`
/// in the package if the codebase has one (an ordinary, unowned repository-root file), and
/// [`complete_root`] builds on it. Falls back to the bare name, type and license if there is none to
/// build on, or it isn't valid JSON.
pub fn root_json(upstream: Option<&str>) -> (r: String)
    ensures
        r@ == json_file(root_members(upstream_members(str_of(upstream)))),
{
    let object = match upstream {
        Some(text) => match parse_object(text) {
            Some(object) => object,
            None => empty_object(),
        },
        None => empty_object(),
    };
    file_of(&complete_root(object))
}

/// The root package's `composer.json` keeps every upstream member but `name` and `type`, with its
/// value and in its order, and adds only what is missing of `name`, `type` and `license`, at the end.
pub proof fn root_preserves_upstream(upstream: Members)
    ensures
        root_members(upstream).len() >= upstream.len(),
        member_names(upstream).is_prefix_of(member_names(root_members(upstream))),
        forall|i: int|
            0 <= i < upstream.len() && upstream[i].0 != "name"@ && upstream[i].0 != "type"@
                ==> #[trigger] root_members(upstream)[i] == upstream[i],
        forall|i: int| 0 <= i < root_members(upstream).len() ==> {
            let member = #[trigger] root_members(upstream)[i];
            &&& member.0 == "name"@ ==> member.1 == json_string(spec_package_name(ROOT_COMPONENT@))
            &&& member.0 == "type"@ ==> member.1 == json_string("moodle-root"@)
            &&& i >= upstream.len() && member.0 == "license"@ ==> member.1 == json_string(LICENSE@)
            &&& i >= upstream.len() ==> (member.0 == "name"@ || member.0 == "type"@ || member.0 == "license"@)
                && !has_member(upstream, member.0)
        },
        has_member(root_members(upstream), "name"@),
        has_member(root_members(upstream), "type"@),
        has_member(root_members(upstream), "license"@),
{
    names_differ();
    let name = json_string(spec_package_name(ROOT_COMPONENT@));
    let named = with_member(upstream, "name"@, name);
    let typed = with_member(named, "type"@, json_string("moodle-root"@));
    with_member_keeps_names(upstream, "name"@, name);
    with_member_keeps_names(named, "type"@, json_string("moodle-root"@));
    with_member_keeps_names(typed, "license"@, json_string(LICENSE@));
    let done = root_members(upstream);
    assert forall|i: int| 0 <= i < done.len() implies {
        let member = #[trigger] done[i];
        &&& member.0 == "name"@ ==> member.1 == name
        &&& member.0 == "type"@ ==> member.1 == json_string("moodle-root"@)
        &&& i >= upstream.len() && member.0 == "license"@ ==> member.1 == json_string(LICENSE@)
        &&& i >= upstream.len() ==> (member.0 == "name"@ || member.0 == "type"@ || member.0 == "license"@)
            && !has_member(upstream, member.0)
    } by {
        assert(member_names(done)[i] == done[i].0);
        if i < typed.len() {
            assert(member_names(typed)[i] == typed[i].0);
        }
        if i < named.len() {
            assert(member_names(named)[i] == named[i].0);
        }
        if i < upstream.len() {
            assert(member_names(upstream)[i] == upstream[i].0);
        }
    }
}

/// Setting a member keeps the names before it in place, and adds its own at the end if it is new.
proof fn with_member_keeps_names(members: Members, name: Seq<char>, value: Seq<char>)
    ensures
        member_names(with_member(members, name, value)) == if has_member(members, name) {
            member_names(members)
        } else {
            member_names(members).push(name)
        },
        has_member(with_member(members, name, value), name),
        forall|n: Seq<char>|
            has_member(members, n) ==> #[trigger] has_member(with_member(members, name, value), n),
        forall|n: Seq<char>|
            n != name && #[trigger] has_member(with_member(members, name, value), n) ==> has_member(members, n),
{
    let after = member_names(with_member(members, name, value));
    if has_member(members, name) {
        assert(after =~= member_names(members));
    } else {
        assert(after =~= member_names(members).push(name));
        assert(after.last() == name);
        assert forall|n: Seq<char>| member_names(members).contains(n) implies #[trigger] after.contains(n) by {
            let i = choose|i: int| 0 <= i < member_names(members).len() && member_names(members)[i] == n;
            assert(after[i] == n);
        }
        assert forall|n: Seq<char>| n != name && #[trigger] after.contains(n) implies member_names(members).contains(
            n,
        ) by {
            let i = choose|i: int| 0 <= i < after.len() && after[i] == n;
            assert(member_names(members)[i] == n);
        }
    }
}

/// The packages that the metapackage requires, each in any version.
pub open spec fn required(components: Seq<Seq<char>>) -> Members {
    Seq::new(components.len(), |i: int| (spec_package_name(components[i]), json_string("*"@)))
}

/// The members of the metapackage's `composer.json`.
pub open spec fn metapackage_members(components: Seq<Seq<char>>) -> Members {
    seq![
        ("name"@, json_string(vendored(METAPACKAGE_DIR_NAME@))),
        ("type"@, json_string("metapackage"@)),
        ("license"@, json_string(LICENSE@)),
        ("require"@, json_object(required(components))),
    ]
}

/// The object in the metapackage's `composer.json`: a single package that requires every one of
/// `components`, so that requiring just `moodle-standard` pulls in the whole split-up codebase.
/// Composer's own `metapackage` type says that there is no code to install, only dependencies to
/// resolve.
///
/// Every dependency is constrained to `*`: none of these packages ever get a tagged version.
pub fn metapackage_object(components: &StringSet) -> (r: JsonObject)
    ensures
        object_members(r) == metapackage_members(components.spec_members()),
        components.valid(),
{
    let n = components.len();
    let ghost all = components.spec_members();
    let mut require = empty_object();
    let mut i: usize = 0;
    assert(required(all).take(0) =~= Seq::<(Seq<char>, Seq<char>)>::empty());
    while i < n
        invariant
            i <= n,
            n == all.len(),
            all == components.spec_members(),
            ascending(all),
            object_members(require) == required(all).take(i as int),
        decreases n - i,
    {
        let name = package_name(components.at(i));
        let ghost before = required(all).take(i as int);
        insert_text(&mut require, &name, "*");
        proof {
            assert forall|k: int| 0 <= k < before.len() implies (#[trigger] before[k]).0 != name@ by {
                if before[k].0 == name@ {
                    package_names_tell_components_apart(all[k], all[i as int]);
                    precedes_is_asymmetric(all[k], all[i as int]);
                }
            }
            new_member_comes_last(before, name@, json_string("*"@));
            assert(before.push((name@, json_string("*"@))) =~= required(all).take(i + 1));
        }
        i += 1;
    }
    assert(required(all).take(i as int) =~= required(all));
    proof {
        names_differ();
    }
    let mut r = headed_object(&concat3(VENDOR, "/", METAPACKAGE_DIR_NAME), "metapackage");
    let ghost head = object_members(r);
    insert_object(&mut r, "require", require);
    proof {
        new_member_comes_last(head, "require"@, json_object(required(all)));
        assert(object_members(r) =~= metapackage_members(all));
    }
    r
}

/// The text of the metapackage's `composer.json`: see [`metapackage_object`].
pub fn metapackage_json(components: &StringSet) -> (r: String)
    ensures
        r@ == json_file(metapackage_members(components.spec_members())),
        components.valid(),
{
    file_of(&metapackage_object(components))
}

/// Packages of different components have different names.
pub proof fn package_names_tell_components_apart(a: Seq<char>, b: Seq<char>)
    ensures
        (spec_package_name(a) == spec_package_name(b)) == (a == b),
{
    let head = VENDOR@ + "/"@ + "moodle-"@;
    assert(spec_package_name(a) =~= head + a);
    assert(spec_package_name(b) =~= head + b);
    assert((head + a).skip(head.len() as int) =~= a);
    assert((head + b).skip(head.len() as int) =~= b);
}

/// The metapackage requires exactly the packages of the given components, in the alphabetical order
/// of their names.
pub proof fn metapackage_requires_every_package_in_order(components: &StringSet)
    requires
        components.valid(),
    ensures
        ascending(member_names(required(components.spec_members()))),
        forall|component: Seq<char>|
            has_member(required(components.spec_members()), #[trigger] spec_package_name(component))
                == components@.contains(component),
{
    let all = components.spec_members();
    let names = member_names(required(all));
    assert forall|i: int, j: int| 0 <= i < j < names.len() implies precedes(names[i], names[j]) by {
        let head = VENDOR@ + "/"@ + "moodle-"@;
        assert(names[i] =~= head + all[i]);
        assert(names[j] =~= head + all[j]);
        precedes_below_a_common_start(head, all[i], all[j]);
    }
    assert forall|component: Seq<char>|
        has_member(required(all), #[trigger] spec_package_name(component)) == components@.contains(component) by {
        let name = spec_package_name(component);
        if names.contains(name) {
            let i = choose|i: int| 0 <= i < names.len() && names[i] == name;
            package_names_tell_components_apart(all[i], component);
            assert(all.contains(all[i]));
        }
        if all.contains(component) {
            let i = choose|i: int| 0 <= i < all.len() && all[i] == component;
            assert(names[i] == name);
        }
    }
}

/// A start that two texts share does not change which comes first.
proof fn precedes_below_a_common_start(start: Seq<char>, a: Seq<char>, b: Seq<char>)
    ensures
        precedes(start + a, start + b) == precedes(a, b),
    decreases start.len(),
{
    if start.len() == 0 {
        assert(start + a =~= a);
        assert(start + b =~= b);
    } else {
        precedes_below_a_common_start(start.drop_first(), a, b);
        assert((start + a).drop_first() =~= start.drop_first() + a);
        assert((start + b).drop_first() =~= start.drop_first() + b);
    }
}

} // verus!
