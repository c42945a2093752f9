//! Where files are copied to, and what is written beside them, in terms of their texts.

use vstd::prelude::*;

use crate::extract_packages::composer_json::Entrypoints;
use crate::extract_packages::composer_json::EntrypointsView;
use crate::extract_packages::composer_json::class_dirs;
use crate::extract_packages::composer_json::entrypoint_members;
use crate::extract_packages::composer_json::entrypoints_of;
use crate::extract_packages::composer_json::metapackage_members;
use crate::extract_packages::composer_json::moodle_members;
use crate::extract_packages::composer_json::package_members;
use crate::extract_packages::composer_json::packaged_files;
use crate::extract_packages::composer_json::required;
use crate::extract_packages::composer_json::root_members;
use crate::extract_packages::composer_json::root_preserves_upstream;
use crate::extract_packages::copy::PlacementView;
use crate::extract_packages::copy::count_copied;
use crate::extract_packages::copy::left_out;
use crate::extract_packages::copy::placement;
use crate::extract_packages::copy::placements_of;
use crate::extract_packages::copy::total_size;
use crate::extract_packages::copy::unresolved_in;
use crate::extract_packages::copy::walked;
use crate::extract_packages::json::Members;
use crate::extract_packages::json::has_member;
use crate::extract_packages::json::json_array;
use crate::extract_packages::json::json_members;
use crate::extract_packages::json::json_object;
use crate::extract_packages::json::json_string;
use crate::extract_packages::process::ExtractionStep;
use crate::extract_packages::process::described;
use crate::extract_packages::process::extraction_steps;
use crate::extract_packages::process::inside;
use crate::extract_packages::process::unresolved_report;
use crate::moodle::entrypoints::BootstrapKind;
use crate::moodle::entrypoints::FileClassification;
use crate::moodle::resolver::Directories;
use crate::moodle::resolver::Location;
use crate::moodle::resolver::deepest_component_is_in_range;
use crate::moodle::resolver::first_plugin;
use crate::moodle::resolver::is_ordinary;
use crate::moodle::resolver::named;
use crate::moodle::resolver::plain_segment;
use crate::moodle::resolver::plain_segments_are_segments;
use crate::moodle::resolver::resolution;
use crate::moodle::resolver::resolution_keeps_the_path_verbatim;
use crate::moodle::resolver::what_a_component_contains_resolves_to_it;
use crate::moodle::resolver::what_nothing_contains_resolves_to_root;
use crate::text::decimal;
use crate::text::join;
use crate::text::split;
use crate::text::split_parts_hold_no_separator;
use crate::text::trim_start;
use crate::text::trim_start_takes_the_run;

verus! {

// ---------------------------------------------------------------------------------------------
// Copies.

/// Behind any number of slashes, what does not start with one is all that trimming leaves.
proof fn trimmed_behind_a_slash(path: Seq<char>)
    requires
        path.len() > 0 ==> path[0] != '/',
    ensures
        trim_start("/"@ + path, '/') == path,
        trim_start(path, '/') == path,
{
    reveal_strlit("/");
    assert(("/"@ + path)[0] == '/');
    assert(("/"@ + path).drop_first() =~= path);
    assert(trim_start(path, '/') == path);
}

/// Whether nothing but the root pseudo-component has its name.
pub open spec fn root_is_none(dirs: Directories) -> bool {
    forall|at: Location| #[trigger] dirs.components.contains_key(at) ==> dirs.components[at] != "root"@
}

/// The copy of a file lies in the directory of its component's package, under the whole of its path within
/// the component.
pub proof fn copies_keep_their_path(dirs: Directories, relative: Seq<char>, component: Seq<char>, path: Seq<char>)
    requires
        resolution(dirs, relative) is Some,
        resolution(dirs, relative)->0.component == component,
        resolution(dirs, relative)->0.path_in_component == "/"@ + path,
        path.len() > 0 ==> path[0] != '/',
    ensures
        placement(dirs, relative).component == component,
        placement(dirs, relative).target == "moodle-"@ + component + "/"@ + path,
        placement(dirs, relative).resolved,
        placement(dirs, relative).relative == relative,
{
    reveal_strlit("/");
    trimmed_behind_a_slash(path);
}

/// The copy of any file lies under the end of its own path, as it was written, without slashes before it.
pub proof fn copies_end_as_their_originals(dirs: Directories, relative: Seq<char>) -> (path: Seq<char>)
    ensures
        placement(dirs, relative).target == "moodle-"@ + placement(dirs, relative).component + "/"@ + path,
        path.is_suffix_of(relative),
        path.len() > 0 ==> path[0] != '/',
{
    reveal_strlit("/");
    assert("/"@ =~= seq!['/']);
    let found = resolution(dirs, relative);
    let rooted = "/"@ + relative;
    let within = if placement(dirs, relative).resolved {
        found->0.path_in_component
    } else {
        rooted
    };
    if placement(dirs, relative).resolved {
        resolution_keeps_the_path_verbatim(dirs, relative);
    } else {
        assert(rooted.subrange(0, rooted.len() as int) =~= rooted);
    }
    let path = trim_start(within, '/');
    trim_start_takes_the_run(within, '/');
    let skipped = within.len() - path.len();
    assert(skipped > 0) by {
        if skipped == 0 {
            assert(within[0] == '/');
        }
    }
    assert(within =~= rooted.subrange(rooted.len() - within.len(), rooted.len() as int));
    assert(relative.subrange(relative.len() - path.len(), relative.len() as int) =~= path);
    path
}

/// The copy of a file that nothing owns lies in the root package, under the whole of its own path.
pub proof fn copies_of_root_keep_their_path(dirs: Directories, relative: Seq<char>)
    requires
        root_is_none(dirs),
        placement(dirs, relative).component == "root"@,
        relative.len() > 0 ==> relative[0] != '/',
    ensures
        placement(dirs, relative).target == "moodle-root/"@ + relative,
{
    reveal_strlit("/");
    reveal_strlit("root");
    reveal_strlit("moodle-");
    reveal_strlit("moodle-root/");
    assert("/"@ =~= seq!['/']);
    assert("moodle-root/"@ =~= "moodle-"@ + "root"@ + "/"@);
    trimmed_behind_a_slash(relative);
    trimmed_behind_a_slash(Seq::empty());
    if placement(dirs, relative).resolved {
        let segments = named(split(relative, '/'));
        match first_plugin(dirs, segments, 0) {
            Some(i) => {
                let plugin_type = dirs.plugin_types[segments.take(i)];
                let component = plugin_type + seq!['_'] + segments[i];
                assert(component[plugin_type.len() as int] == '_');
                assert("root"@[0] != '_' && "root"@[1] != '_' && "root"@[2] != '_' && "root"@[3] != '_');
                assert(false);
            },
            None => {
                deepest_component_is_in_range(dirs, segments, segments.len() as int);
            },
        }
    }
}

/// No two files of the root package have the same copy.
pub proof fn no_two_files_of_root_have_one_copy(dirs: Directories, a: Seq<char>, b: Seq<char>)
    requires
        root_is_none(dirs),
        a != b,
        placement(dirs, a).component == "root"@,
        placement(dirs, b).component == "root"@,
        a.len() > 0 ==> a[0] != '/',
        b.len() > 0 ==> b[0] != '/',
    ensures
        placement(dirs, a).target != placement(dirs, b).target,
{
    copies_of_root_keep_their_path(dirs, a);
    copies_of_root_keep_their_path(dirs, b);
    same_ends("moodle-root/"@, a, b);
}

proof fn same_ends(start: Seq<char>, a: Seq<char>, b: Seq<char>)
    ensures
        start + a == start + b ==> a == b,
{
    if start + a == start + b {
        assert((start + a).skip(start.len() as int) =~= a);
        assert((start + b).skip(start.len() as int) =~= b);
    }
}

/// No two files with different paths within the same component have the same copy.
pub proof fn no_two_files_of_a_component_have_one_copy(
    dirs: Directories,
    a: Seq<char>,
    b: Seq<char>,
    component: Seq<char>,
    path: Seq<char>,
    other: Seq<char>,
)
    requires
        resolution(dirs, a) is Some && resolution(dirs, b) is Some,
        resolution(dirs, a)->0.component == component && resolution(dirs, b)->0.component == component,
        resolution(dirs, a)->0.path_in_component == "/"@ + path,
        resolution(dirs, b)->0.path_in_component == "/"@ + other,
        path.len() > 0 ==> path[0] != '/',
        other.len() > 0 ==> other[0] != '/',
        path != other,
    ensures
        placement(dirs, a).target != placement(dirs, b).target,
{
    copies_keep_their_path(dirs, a, component, path);
    copies_keep_their_path(dirs, b, component, other);
    same_ends("moodle-"@ + component + "/"@, path, other);
}

/// A file in the directory of a component, in no other component's and in no plugin type's root further
/// down, is copied to the package of that component, under the names that lead to it from there.
pub proof fn files_of_a_component_go_to_its_package(dirs: Directories, at: Location, rest: Location)
    requires
        dirs.consistent(),
        dirs.components.contains_key(at),
        rest.len() > 0,
        is_ordinary(at + rest),
        forall|k: int|
            at.len() < k <= (at + rest).len() ==> !#[trigger] dirs.components.contains_key((at + rest).take(k)),
        forall|k: int|
            at.len() <= k < (at + rest).len() ==> !#[trigger] dirs.plugin_types.contains_key((at + rest).take(k)),
    ensures
        placement(dirs, join(at + rest, "/"@)).target == "moodle-"@ + dirs.components[at] + "/"@ + join(rest, "/"@),
        placement(dirs, join(at + rest, "/"@)).component == dirs.components[at],
        placement(dirs, join(at + rest, "/"@)).resolved,
{
    reveal_strlit("/");
    assert("/"@ =~= seq!['/']);
    what_a_component_contains_resolves_to_it(dirs, at, rest);
    assert((at + rest)[at.len() as int] == rest[0]);
    joined_starts_as_the_first(rest);
    copies_keep_their_path(dirs, join(at + rest, "/"@), dirs.components[at], join(rest, "/"@));
}

proof fn joined_starts_as_the_first(parts: Seq<Seq<char>>)
    requires
        parts.len() > 0,
        parts[0].len() > 0,
        !parts[0].contains('/'),
    ensures
        join(parts, "/"@).len() > 0,
        join(parts, "/"@)[0] == parts[0][0],
        parts[0][0] != '/',
    decreases parts.len(),
{
    assert(parts[0].contains(parts[0][0]));
    if parts.len() > 1 {
        assert(parts.drop_last()[0] == parts[0]);
        joined_starts_as_the_first(parts.drop_last());
    }
}

/// A file with ordinary names that lies in no component's directory and in no plugin type's root is copied
/// to the root package, under the whole of its path.
pub proof fn files_of_nothing_go_to_root(dirs: Directories, at: Location)
    requires
        at.len() > 0,
        forall|i: int| 0 <= i < at.len() ==> plain_segment(#[trigger] at[i]),
        forall|k: int| 0 <= k <= at.len() ==> !#[trigger] dirs.components.contains_key(at.take(k)),
        forall|k: int| 0 <= k < at.len() ==> !#[trigger] dirs.plugin_types.contains_key(at.take(k)),
    ensures
        placement(dirs, join(at, "/"@)).target == "moodle-root/"@ + join(at, "/"@),
        placement(dirs, join(at, "/"@)).component == "root"@,
        placement(dirs, join(at, "/"@)).resolved,
{
    reveal_strlit("/");
    reveal_strlit("root");
    reveal_strlit("moodle-");
    reveal_strlit("moodle-root/");
    assert("/"@ =~= seq!['/']);
    assert("moodle-root/"@ =~= "moodle-"@ + "root"@ + "/"@);
    what_nothing_contains_resolves_to_root(dirs, at);
    plain_segments_are_segments(at);
    joined_starts_as_the_first(at);
    copies_keep_their_path(dirs, join(at, "/"@), "root"@, join(at, "/"@));
}

/// A file is walked exactly if no name in its path is '.git' and the first is not 'composer.lock'.
pub proof fn what_is_walked(relative: Seq<char>)
    ensures
        walked(relative) <==> !split(relative, '/').contains(".git"@) && split(relative, '/')[0] != "composer.lock"@,
{
    let parts = split(relative, '/');
    split_parts_hold_no_separator(relative, '/');
    reveal_strlit(".git");
    reveal_strlit("composer.lock");
    assert(".git"@.len() == 4 && "composer.lock"@.len() == 13);
    if walked(relative) {
        assert(!left_out(1, parts[0]));
        if parts.contains(".git"@) {
            let i = choose|i: int| 0 <= i < parts.len() && parts[i] == ".git"@;
            assert(!left_out(i + 1, parts[i]));
        }
    }
    if !parts.contains(".git"@) && parts[0] != "composer.lock"@ {
        assert forall|i: int| 0 <= i < parts.len() implies !left_out(i + 1, #[trigger] parts[i]) by {
            if parts[i] == ".git"@ {
                assert(parts.contains(".git"@));
            }
        }
    }
}

/// The placements of two lists of files, one behind the other, are those of the one and then those of the
/// other; that of a single file is where it goes, if it is walked.
pub proof fn files_are_placed_one_by_one(dirs: Directories, files: Seq<Seq<char>>, more: Seq<Seq<char>>)
    ensures
        placements_of(dirs, files + more) == placements_of(dirs, files) + placements_of(dirs, more),
        forall|file: Seq<char>| #[trigger]
            walked(file) ==> placements_of(dirs, seq![file]) == seq![placement(dirs, file)],
        forall|file: Seq<char>| !#[trigger] walked(file) ==> placements_of(dirs, seq![file]).len() == 0,
    decreases more.len(),
{
    if more.len() == 0 {
        assert(files + more =~= files);
        assert(placements_of(dirs, files) + placements_of(dirs, more) =~= placements_of(dirs, files));
    } else {
        files_are_placed_one_by_one(dirs, files, more.drop_last());
        assert((files + more).drop_last() =~= files + more.drop_last());
        assert(placements_of(dirs, files + more) =~= placements_of(dirs, files) + placements_of(dirs, more));
    }
    assert forall|file: Seq<char>| #[trigger] walked(file) implies placements_of(dirs, seq![file]) == seq![
        placement(dirs, file),
    ] by {
        assert(seq![file].drop_last() =~= Seq::<Seq<char>>::empty());
        assert(placements_of(dirs, seq![file].drop_last()) =~= Seq::<PlacementView>::empty());
        assert(placements_of(dirs, seq![file]) =~= seq![placement(dirs, file)]);
    }
    assert forall|file: Seq<char>| !#[trigger] walked(file) implies placements_of(dirs, seq![file]).len() == 0 by {
        assert(seq![file].drop_last() =~= Seq::<Seq<char>>::empty());
        assert(placements_of(dirs, seq![file].drop_last()) =~= Seq::<PlacementView>::empty());
    }
}

/// A file is reported exactly if its placement is one that did not resolve.
pub proof fn what_did_not_resolve_is_reported(placements: Seq<PlacementView>, file: Seq<char>)
    ensures
        unresolved_in(placements).contains(file) <==> exists|i: int|
            0 <= i < placements.len() && !(#[trigger] placements[i]).resolved && placements[i].relative == file,
    decreases placements.len(),
{
    if placements.len() > 0 {
        let front = placements.drop_last();
        let before = unresolved_in(front);
        let all = unresolved_in(placements);
        what_did_not_resolve_is_reported(front, file);
        if all.contains(file) {
            let k = choose|k: int| 0 <= k < all.len() && all[k] == file;
            if k < before.len() {
                assert(before[k] == file);
                let i = choose|i: int|
                    0 <= i < front.len() && !(#[trigger] front[i]).resolved && front[i].relative == file;
                assert(placements[i] == front[i]);
            } else {
                assert(!placements[placements.len() - 1].resolved);
            }
        }
        if exists|i: int|
            0 <= i < placements.len() && !(#[trigger] placements[i]).resolved && placements[i].relative == file {
            let i = choose|i: int|
                0 <= i < placements.len() && !(#[trigger] placements[i]).resolved && placements[i].relative == file;
            if i < front.len() {
                assert(front[i] == placements[i]);
                let k = choose|k: int| 0 <= k < before.len() && before[k] == file;
                assert(all[k] == file);
            } else {
                assert(all.last() == file);
            }
        }
    }
}

/// What two runs of copies did adds up.
pub proof fn tallies_add_up(some: Seq<Option<usize>>, more: Seq<Option<usize>>)
    ensures
        count_copied(some + more) == count_copied(some) + count_copied(more),
        total_size(some + more) == total_size(some) + total_size(more),
        forall|size: usize| #[trigger]
            total_size(seq![Some(size)]) == size && count_copied(seq![Some(size)]) == 1,
        total_size(seq![None]) == 0,
        count_copied(seq![None]) == 0,
    decreases more.len(),
{
    reveal_with_fuel(count_copied, 2);
    reveal_with_fuel(total_size, 2);
    if more.len() == 0 {
        assert(some + more =~= some);
    } else {
        tallies_add_up(some, more.drop_last());
        assert((some + more).drop_last() =~= some + more.drop_last());
    }
}

// ---------------------------------------------------------------------------------------------
// What is written of a package.

/// Every package is called after its component, is a component's, and has Moodle's license.
pub proof fn packages_are_called_after_their_component(
    component: Seq<char>,
    has_version_php: bool,
    entry_points: Option<EntrypointsView>,
)
    ensures
        ({
            let members = package_members(component, has_version_php, entry_points);
            &&& members.len() >= 4
            &&& members[0] == ("name"@, json_string("moodle/moodle-"@ + component))
            &&& members[1] == ("type"@, json_string("moodle-component"@))
            &&& members[2] == ("license"@, json_string("GPL-3.0-or-later"@))
            &&& members[3].0 == "autoload"@
        }),
{
    reveal_strlit("moodle");
    reveal_strlit("/");
    reveal_strlit("moodle-");
    reveal_strlit("moodle/moodle-");
    assert("moodle/moodle-"@ =~= "moodle"@ + "/"@ + "moodle-"@);
    assert("moodle"@ + "/"@ + ("moodle-"@ + component) =~= "moodle/moodle-"@ + component);
}

/// The classes of a package are loaded from its 'classes' directory, under the component's name; those of
/// core also from two directories with support for tests.
pub proof fn classes_are_loaded_from_the_package(
    component: Seq<char>,
    has_version_php: bool,
    entry_points: Option<EntrypointsView>,
)
    ensures
        component != "core"@ ==> package_members(component, has_version_php, entry_points)[3].1 == json_object(
            seq![("psr-4"@, json_object(seq![(component + "\\"@, json_string("classes/"@))]))],
        ),
        component == "core"@ ==> package_members(component, has_version_php, entry_points)[3].1 == json_object(
            seq![
                (
                    "psr-4"@,
                    json_object(
                        seq![
                            ("core\\"@, json_string("classes/"@)),
                            ("core_phpunit\\"@, json_string("phpunit/classes/"@)),
                            ("core_testing\\"@, json_string("testing/classes/"@)),
                        ],
                    ),
                ),
            ],
        ),
{
    if component == "core"@ {
        reveal_strlit("core");
        reveal_strlit("\\");
        reveal_strlit("core\\");
        assert(component + "\\"@ =~= "core\\"@);
        assert(class_dirs(component) =~= seq![
            ("core\\"@, json_string("classes/"@)),
            ("core_phpunit\\"@, json_string("phpunit/classes/"@)),
            ("core_testing\\"@, json_string("testing/classes/"@)),
        ]);
    }
}

/// A package names its component exactly if it has no 'version.php' that does, and its entry points exactly
/// if it has some; with neither there is nothing further in it.
pub proof fn packages_say_what_moodle_needs(
    component: Seq<char>,
    has_version_php: bool,
    cli: Seq<Seq<char>>,
    other: Seq<Seq<char>>,
)
    ensures
        ({
            let name = ("component"@, json_string(component));
            let listed = if other.len() == 0 {
                seq![("cli"@, json_array(cli))]
            } else if cli.len() == 0 {
                seq![("other"@, json_array(other))]
            } else {
                seq![("cli"@, json_array(cli)), ("other"@, json_array(other))]
            };
            let entry_points = ("entrypoints"@, json_object(listed));
            let with = package_members(component, has_version_php, Some(EntrypointsView { cli, other }));
            let without = package_members(component, has_version_php, None);
            &&& without == with.take(4) + (if has_version_php {
                Seq::<(Seq<char>, Seq<char>)>::empty()
            } else {
                seq![("extra"@, json_object(seq![("moodle"@, json_object(seq![name]))]))]
            })
            &&& cli.len() == 0 && other.len() == 0 ==> with == without
            &&& cli.len() > 0 || other.len() > 0 ==> with == with.take(4) + (if has_version_php {
                seq![("extra"@, json_object(seq![("moodle"@, json_object(seq![entry_points]))]))]
            } else {
                seq![("extra"@, json_object(seq![("moodle"@, json_object(seq![name, entry_points]))]))]
            })
        }),
{
    let listed = if other.len() == 0 {
        seq![("cli"@, json_array(cli))]
    } else if cli.len() == 0 {
        seq![("other"@, json_array(other))]
    } else {
        seq![("cli"@, json_array(cli)), ("other"@, json_array(other))]
    };
    let e = EntrypointsView { cli, other };
    if cli.len() > 0 || other.len() > 0 {
        assert(entrypoint_members(e) =~= listed);
        let moodle = moodle_members(component, has_version_php, Some(e));
        let said = ("entrypoints"@, json_object(listed));
        if has_version_php {
            assert(moodle =~= seq![said]);
        } else {
            assert(moodle =~= seq![("component"@, json_string(component)), said]);
        }
    }
    let with = package_members(component, has_version_php, Some(e));
    let without = package_members(component, has_version_php, None);
    assert(without.take(4) =~= with.take(4));
    assert(without =~= without.take(4) + without.skip(4));
    assert(with =~= with.take(4) + with.skip(4));
}

/// Root's package is called 'moodle-root' and is of that type, whatever the upstream file says, and has the
/// license that the file says or else Moodle's.
pub proof fn root_has_its_own_name_and_type(upstream: Members)
    ensures
        has_member(root_members(upstream), "name"@),
        has_member(root_members(upstream), "type"@),
        has_member(root_members(upstream), "license"@),
        forall|i: int| 0 <= i < root_members(upstream).len() ==> {
            let member = #[trigger] root_members(upstream)[i];
            &&& member.0 == "name"@ ==> member.1 == json_string("moodle/moodle-root"@)
            &&& member.0 == "type"@ ==> member.1 == json_string("moodle-root"@)
            &&& i >= upstream.len() && member.0 == "license"@ ==> member.1 == json_string("GPL-3.0-or-later"@)
        },
{
    root_preserves_upstream(upstream);
    reveal_strlit("moodle");
    reveal_strlit("/");
    reveal_strlit("moodle-");
    reveal_strlit("root");
    reveal_strlit("moodle/moodle-root");
    assert("moodle"@ + "/"@ + ("moodle-"@ + "root"@) =~= "moodle/moodle-root"@);
}

/// The metapackage requires the package of each component, in any version, and nothing else.
pub proof fn the_metapackage_requires_each_package(components: Seq<Seq<char>>, i: int)
    requires
        0 <= i < components.len(),
    ensures
        metapackage_members(components) == seq![
            ("name"@, json_string("moodle/moodle-standard"@)),
            ("type"@, json_string("metapackage"@)),
            ("license"@, json_string("GPL-3.0-or-later"@)),
            ("require"@, json_object(required(components))),
        ],
        required(components).len() == components.len(),
        required(components)[i] == ("moodle/moodle-"@ + components[i], json_string("*"@)),
{
    reveal_strlit("moodle");
    reveal_strlit("/");
    reveal_strlit("moodle-");
    reveal_strlit("moodle/moodle-");
    reveal_strlit("moodle-standard");
    reveal_strlit("moodle/moodle-standard");
    assert("moodle"@ + "/"@ + "moodle-standard"@ =~= "moodle/moodle-standard"@);
    assert("moodle"@ + "/"@ + ("moodle-"@ + components[i]) =~= "moodle/moodle-"@ + components[i]);
}

/// The files of two lists of entry points are packaged one behind the other.
pub proof fn entry_points_are_packaged_one_by_one(
    dirs: Directories,
    some: Seq<FileClassification>,
    more: Seq<FileClassification>,
    component: Seq<char>,
    cli: bool,
)
    ensures
        packaged_files(dirs, some + more, component, cli) == packaged_files(dirs, some, component, cli)
            + packaged_files(dirs, more, component, cli),
    decreases more.len(),
{
    if more.len() == 0 {
        assert(some + more =~= some);
        assert(packaged_files(dirs, some, component, cli) + packaged_files(dirs, more, component, cli)
            =~= packaged_files(dirs, some, component, cli));
    } else {
        entry_points_are_packaged_one_by_one(dirs, some, more.drop_last(), component, cli);
        assert((some + more).drop_last() =~= some + more.drop_last());
        assert(packaged_files(dirs, some + more, component, cli) =~= packaged_files(dirs, some, component, cli)
            + packaged_files(dirs, more, component, cli));
    }
}

/// A single entry point is listed for the component that owns it, under its path within that, among the
/// command-line scripts if it is one and among the others if it is not; for no other component, and not at
/// all if nothing owns it.
pub proof fn an_entry_point_is_listed_for_its_component(
    dirs: Directories,
    entry_point: FileClassification,
    component: Seq<char>,
    path: Seq<char>,
    other: Seq<char>,
)
    requires
        resolution(dirs, entry_point.file@) is Some,
        resolution(dirs, entry_point.file@)->0.component == component,
        resolution(dirs, entry_point.file@)->0.path_in_component == "/"@ + path,
        path.len() > 0 ==> path[0] != '/',
        other != component,
    ensures
        ({
            let listed = entrypoints_of(dirs, seq![entry_point], component);
            &&& component != "root"@ && entry_point.kind == BootstrapKind::Cli ==> listed.cli == seq![path]
                && listed.other.len() == 0
            &&& component != "root"@ && entry_point.kind != BootstrapKind::Cli ==> listed.other == seq![path]
                && listed.cli.len() == 0
            &&& component == "root"@ ==> listed.none()
            &&& entrypoints_of(dirs, seq![entry_point], other).none()
        }),
{
    reveal_strlit("/");
    trimmed_behind_a_slash(path);
    let one = seq![entry_point];
    assert(one.drop_last() =~= Seq::<FileClassification>::empty());
    assert(one.last() == entry_point);
    assert(packaged_files(dirs, one.drop_last(), component, true) =~= Seq::<Seq<char>>::empty());
    assert(packaged_files(dirs, one.drop_last(), component, false) =~= Seq::<Seq<char>>::empty());
    assert(packaged_files(dirs, one.drop_last(), other, true) =~= Seq::<Seq<char>>::empty());
    assert(packaged_files(dirs, one.drop_last(), other, false) =~= Seq::<Seq<char>>::empty());
    let listed = entrypoints_of(dirs, one, component);
    if component != "root"@ {
        if entry_point.kind == BootstrapKind::Cli {
            assert(listed.cli =~= seq![path]);
        } else {
            assert(listed.other =~= seq![path]);
        }
    }
}

/// An entry point that does not resolve is listed for no component.
pub proof fn an_entry_point_of_nothing_is_not_listed(
    dirs: Directories,
    entry_point: FileClassification,
    component: Seq<char>,
)
    requires
        resolution(dirs, entry_point.file@) is None,
    ensures
        entrypoints_of(dirs, seq![entry_point], component).none(),
{
    let one = seq![entry_point];
    assert(one.drop_last() =~= Seq::<FileClassification>::empty());
    assert(packaged_files(dirs, one.drop_last(), component, true) =~= Seq::<Seq<char>>::empty());
    assert(packaged_files(dirs, one.drop_last(), component, false) =~= Seq::<Seq<char>>::empty());
}

// ---------------------------------------------------------------------------------------------
// What is said and done.

/// Up to ten files that did not resolve are named; of more than ten the first ten, and how many more there
/// are.
pub proof fn ten_files_are_named(unresolved: Seq<Seq<char>>, i: int)
    requires
        0 <= i < unresolved.len(),
    ensures
        ({
            let report = unresolved_report(unresolved);
            let n = unresolved.len();
            &&& report[0] == decimal(n) + " files did not resolve to a component and went to moodle-root:"@
            &&& i < 10 ==> report[i + 1] == "  "@ + unresolved[i]
            &&& n <= 10 ==> report.len() == n + 1
            &&& n > 10 ==> report.len() == 12 && report[11] == "  ... and "@ + decimal((n - 10) as nat) + " more"@
        }),
        unresolved_report(Seq::empty()).len() == 0,
{
}

/// The destination is checked first and cleaned only if that is asked for; the codebase is rewritten before
/// anything is copied, and all that is written of a package before it is committed, which comes last.
pub proof fn steps_of_an_extraction(clean: bool)
    ensures
        ({
            let steps = extraction_steps(clean);
            let n = steps.len();
            &&& steps[0] == ExtractionStep::CheckDestination
            &&& steps.contains(ExtractionStep::CleanDestination) == clean
            &&& clean ==> n == 9 && steps[1] == ExtractionStep::CleanDestination
            &&& !clean ==> n == 8
            &&& steps[n - 7] == ExtractionStep::CreateDestination
            &&& steps[n - 6] == ExtractionStep::Rewrite
            &&& steps[n - 5] == ExtractionStep::CopyFiles
            &&& steps[n - 4] == ExtractionStep::DescribePackages
            &&& steps[n - 3] == ExtractionStep::CreateMetapackage
            &&& steps[n - 2] == ExtractionStep::DescribeMetapackage
            &&& steps[n - 1] == ExtractionStep::CommitPackages
        }),
{
    let steps = extraction_steps(clean);
    if clean {
        assert(steps[1] == ExtractionStep::CleanDestination);
    }
}

/// A destination lies inside the codebase exactly if its path goes on from that of the codebase.
pub proof fn inside_is_below(root: Seq<Seq<u8>>, below: Seq<Seq<u8>>)
    ensures
        inside(Some(root), Some(root + below)),
        below.len() > 0 ==> !inside(Some(root + below), Some(root)),
        !inside(None, Some(below)),
        !inside(Some(root), None),
{
    assert((root + below).subrange(0, root.len() as int) =~= root);
}

/// A real component's package is described with its own entry points and no other's, whatever the upstream
/// file says; that of root by the upstream file, whatever the entry points.
pub proof fn packages_are_described_by_their_own(
    component: Seq<char>,
    has_version_php: bool,
    upstream: Option<Seq<char>>,
    other_upstream: Option<Seq<char>>,
    entry_points: Map<Seq<char>, Entrypoints>,
    other_entry_points: Map<Seq<char>, Entrypoints>,
)
    ensures
        component != "root"@ && entry_points.contains_key(component) ==> described(
            component,
            has_version_php,
            upstream,
            entry_points,
        ) == package_members(component, has_version_php, Some(entry_points[component]@)),
        component != "root"@ && !entry_points.contains_key(component) ==> described(
            component,
            has_version_php,
            upstream,
            entry_points,
        ) == package_members(component, has_version_php, None),
        described("root"@, has_version_php, upstream, entry_points) == described(
            "root"@,
            false,
            upstream,
            other_entry_points,
        ),
        described("root"@, has_version_php, None, entry_points) == root_members(Seq::empty()),
        forall|text: Seq<char>|
            (#[trigger] json_members(text)) is Some ==> described(
                "root"@,
                has_version_php,
                Some(text),
                entry_points,
            ) == root_members(json_members(text)->0),
{
}

} // verus!
