//! Which files are scanned, and where their references are told to be, in terms of their paths.

use vstd::prelude::*;

use crate::moodle::categorise::PathCategory;
use crate::moodle::entrypoints::ScannedFiles;
use crate::moodle::entrypoints::extent_of;
use crate::moodle::laws::places_in_dirroot;
use crate::moodle::resolver::resolution;
use crate::moodle::scan::Codebase;
use crate::moodle::scan::Scan;
use crate::moodle::scan::below_root;
use crate::moodle::scan::categorised;
use crate::moodle::scan::categorised_file;
use crate::moodle::scan::categorised_files;
use crate::moodle::scan::codebase;
use crate::moodle::scan::php_file;
use crate::moodle::scan::readable;
use crate::moodle::scan::scanned_file;
use crate::moodle::spec_dirroot_prefix;
use crate::moodle::thirdparty::XmlView;
use crate::moodle::thirdparty::declared;
use crate::moodle::thirdparty::is_at_or_inside;
use crate::moodle::thirdparty::thirdparty_path;
use crate::path_finder::PathResult;
use crate::path_finder::PathView;
use crate::path_finder::notation::segment_of;
use crate::path_finder::reading_laws::slashes_around_dirroot_make_no_difference;
use crate::text::is_white;
use crate::text::split;
use crate::text::split_around_separator;
use crate::text::split_without_separator;
use crate::text::texts;
use crate::text::trimmed_takes_the_white_space;

verus! {

// ---------------------------------------------------------------------------------------------
// Files.

proof fn last_name(dir: Seq<char>, name: Seq<char>)
    requires
        !name.contains('/'),
    ensures
        split(dir + "/"@ + name, '/').last() == name,
        split(name, '/').last() == name,
{
    reveal_strlit("/");
    assert("/"@ =~= seq!['/']);
    split_around_separator(dir, name, '/');
    split_without_separator(name, '/');
}

/// A file with a name that goes on to '.php' is a PHP file, in any directory or none.
pub proof fn php_files_end_in_php(dir: Seq<char>, stem: Seq<char>)
    requires
        !stem.contains('/'),
        stem.len() > 0,
    ensures
        php_file(dir + "/"@ + (stem + ".php"@)),
        php_file(stem + ".php"@),
{
    reveal_strlit(".php");
    let name = stem + ".php"@;
    if name.contains('/') {
        let i = choose|i: int| 0 <= i < name.len() && name[i] == '/';
        assert(".php"@ =~= seq!['.', 'p', 'h', 'p']);
        if i < stem.len() {
            assert(stem[i] == '/');
        }
    }
    last_name(dir, name);
    assert(name.subrange(name.len() - ".php"@.len(), name.len() as int) =~= ".php"@);
}

/// Any other file is none, nor is one called '.php'.
pub proof fn other_files_are_not_php(dir: Seq<char>, name: Seq<char>)
    requires
        !name.contains('/'),
        !".php"@.is_suffix_of(name) || name == ".php"@,
    ensures
        !php_file(dir + "/"@ + name),
        !php_file(name),
{
    last_name(dir, name);
}

/// A PHP file is scanned unless it is third-party code or the template of the configuration, which lies in
/// the root directory.
pub proof fn what_is_scanned(locations: Set<Seq<char>>, dir: Seq<char>, stem: Seq<char>)
    requires
        !stem.contains('/'),
        stem.len() > 0,
    ensures
        scanned_file(locations, dir + "/"@ + (stem + ".php"@)) <==> !thirdparty_path(
            locations,
            dir + "/"@ + (stem + ".php"@),
        ),
        scanned_file(locations, stem + ".php"@) <==> !thirdparty_path(locations, stem + ".php"@) && stem
            != "config-dist"@,
{
    php_files_end_in_php(dir, stem);
    reveal_strlit("config-dist.php");
    reveal_strlit("config-dist");
    reveal_strlit(".php");
    reveal_strlit("/");
    let template = "config-dist.php"@;
    assert(template =~= "config-dist"@ + ".php"@);
    assert(template =~= seq!['c', 'o', 'n', 'f', 'i', 'g', '-', 'd', 'i', 's', 't', '.', 'p', 'h', 'p']);
    let inner = dir + "/"@ + (stem + ".php"@);
    assert(inner[dir.len() as int] == '/');
    if inner == template {
        assert(template[dir.len() as int] != '/');
    }
    if stem + ".php"@ == template {
        assert((stem + ".php"@).take(stem.len() as int) =~= stem);
        assert(template.take(11) =~= "config-dist"@);
    }
}

/// A declared location is third-party code, and so is all that lies below it; what only starts alike is not.
pub proof fn declared_locations_are_thirdparty(location: Seq<char>, below: Seq<char>, more: Seq<char>)
    requires
        more.len() > 0,
        more[0] != '/',
    ensures
        thirdparty_path(set![location], location),
        thirdparty_path(set![location], location + "/"@ + below),
        !thirdparty_path(set![location], location + more),
        !thirdparty_path(Set::empty(), location),
{
    reveal_strlit("/");
    let one = set![location];
    assert(one.contains(location));
    let inside = location + "/"@ + below;
    assert(inside.subrange(0, (location + "/"@).len() as int) =~= location + "/"@);
    let longer = location + more;
    assert forall|other: Seq<char>| #[trigger] one.contains(other) implies !(longer == other || (other
        + "/"@).is_prefix_of(longer)) by {
        assert(other == location);
        assert(longer[location.len() as int] == more[0]);
        if (location + "/"@).is_prefix_of(longer) {
            assert(longer.subrange(0, (location + "/"@).len() as int)[location.len() as int] == '/');
        }
    }
}

/// Whatever one set of locations or another makes third-party, both together do, and nothing more.
pub proof fn locations_are_thirdparty_one_by_one(some: Set<Seq<char>>, more: Set<Seq<char>>, path: Seq<char>)
    ensures
        thirdparty_path(some.union(more), path) <==> thirdparty_path(some, path) || thirdparty_path(more, path),
{
    if thirdparty_path(some.union(more), path) {
        let location = choose|location: Seq<char>| #[trigger]
            some.union(more).contains(location) && is_at_or_inside(location, path);
        assert(some.contains(location) || more.contains(location));
    }
    if thirdparty_path(some, path) {
        let location = choose|location: Seq<char>| #[trigger]
            some.contains(location) && is_at_or_inside(location, path);
        assert(some.union(more).contains(location));
    }
    if thirdparty_path(more, path) {
        let location = choose|location: Seq<char>| #[trigger]
            more.contains(location) && is_at_or_inside(location, path);
        assert(some.union(more).contains(location));
    }
}

/// A manifest is read element by element: a 'location' with some text declares that, without the white space
/// around it, as lying in the directory of the manifest; nothing else declares anything.
pub proof fn locations_are_declared_one_by_one(
    dir: Seq<char>,
    nodes: Seq<XmlView>,
    name: Seq<char>,
    before: Seq<char>,
    path: Seq<char>,
    after: Seq<char>,
)
    requires
        forall|i: int| 0 <= i < before.len() ==> is_white(#[trigger] before[i]),
        forall|i: int| 0 <= i < after.len() ==> is_white(#[trigger] after[i]),
        path.len() > 0 ==> !is_white(path[0]) && !is_white(path.last()),
    ensures
        declared(dir, Seq::empty()).len() == 0,
        declared(dir, nodes.push(XmlView { name, text: None })) == declared(dir, nodes),
        name == "location"@ && path.len() > 0 ==> declared(
            dir,
            nodes.push(XmlView { name, text: Some(before + path + after) }),
        ) == declared(dir, nodes).push(dir + "/"@ + path),
        name != "location"@ || path.len() == 0 ==> declared(
            dir,
            nodes.push(XmlView { name, text: Some(before + path + after) }),
        ) == declared(dir, nodes),
{
    trimmed_takes_the_white_space(before, path, after);
    assert(nodes.push(XmlView { name, text: None }).drop_last() =~= nodes);
    assert(nodes.push(XmlView { name, text: Some(before + path + after) }).drop_last() =~= nodes);
}

/// A path below the root is told from there.
pub proof fn paths_are_told_from_the_root(root: Seq<Seq<char>>, path: Seq<Seq<char>>)
    ensures
        below_root(root, root + path) == path,
        !root.is_prefix_of(path) ==> below_root(root, path) == path,
{
    assert((root + path).subrange(0, root.len() as int) =~= root);
    assert((root + path).skip(root.len() as int) =~= path);
}

/// The files that could be read are kept in order, each with all its references; the others are left out.
pub proof fn readable_files_are_kept(
    files: Seq<(String, Option<Vec<PathResult>>)>,
    name: String,
    results: Vec<PathResult>,
)
    ensures
        readable(Seq::empty()).len() == 0,
        readable(files.push((name, None))) == readable(files),
        readable(files.push((name, Some(results)))) == readable(files).push((name, results)),
{
    let none: Option<Vec<PathResult>> = None;
    assert(files.push((name, none)).drop_last() =~= files);
    assert(files.push((name, Some(results))).drop_last() =~= files);
}

// ---------------------------------------------------------------------------------------------
// References.

/// Every reference of every file is resolved and categorised, once and in order.
pub proof fn every_reference_is_categorised(
    base: Codebase,
    files: ScannedFiles,
    file: (String, Vec<PathResult>),
    k: int,
)
    requires
        0 <= k < file.1@.len(),
    ensures
        ({
            let before = categorised_files(base, files);
            let all = categorised_files(base, files.push(file));
            &&& all.len() == before.len() + file.1@.len()
            &&& all.take(before.len() as int) == before
            &&& all[before.len() + k].file == file.0@
            &&& all[before.len() + k].result == file.1@[k]@
            &&& all[before.len() + k].target == resolution(base.directories, file.1@[k]@.real_path)
            &&& all[before.len() + k] == categorised(base, file.0@, file.1@[k]@)
        }),
{
    assert(files.push(file).drop_last() =~= files);
    let before = categorised_files(base, files);
    let all = categorised_files(base, files.push(file));
    assert(all == before + categorised_file(base, file));
    assert(all.take(before.len() as int) =~= before);
}

/// The source component of a reference is the one that owns its file.
pub proof fn references_come_from_the_owner_of_their_file(base: Codebase, file: Seq<char>, result: PathView)
    ensures
        resolution(base.directories, file) is None ==> categorised(base, file, result).source_component is None,
        resolution(base.directories, file) is Some ==> categorised(base, file, result).source_component == Some(
            resolution(base.directories, file)->0.component,
        ),
{
}

/// A reference in the source of `core\component` or its unit test is told by that, whatever it is to; and any
/// other to a config.php in dirroot or in the repository root by that.
pub proof fn fixed_places_decide_the_category(base: Codebase, dirroot: Seq<char>, file: Seq<char>, result: PathView)
    requires
        dirroot.len() > 0 && dirroot[0] != '/',
        base.segment == "/"@ + dirroot,
    ensures
        ({
            let own = file == dirroot + "/"@ + "lib/classes/component.php"@ || file == dirroot + "/"@
                + "lib/tests/component_test.php"@;
            let category = categorised(base, file, result).category;
            &&& own ==> category == PathCategory::Component
            &&& !own ==> category != PathCategory::Component
            &&& !own && (result.real_path == "config.php"@ || result.real_path == dirroot + "/"@ + "config.php"@)
                ==> category == PathCategory::Config
            &&& result.real_path != "config.php"@ && result.real_path != dirroot + "/"@ + "config.php"@ ==> category
                != PathCategory::Config
        }),
{
    places_start_with_a_name();
    places_in_dirroot(dirroot, "lib/classes/component.php"@);
    places_in_dirroot(dirroot, "lib/tests/component_test.php"@);
    places_in_dirroot(dirroot, "config.php"@);
}

/// The same, where dirroot is the repository root.
pub proof fn fixed_places_decide_the_category_in_the_root(base: Codebase, file: Seq<char>, result: PathView)
    requires
        base.segment == ""@,
    ensures
        ({
            let own = file == "lib/classes/component.php"@ || file == "lib/tests/component_test.php"@;
            let category = categorised(base, file, result).category;
            &&& own ==> category == PathCategory::Component
            &&& !own ==> category != PathCategory::Component
            &&& !own && result.real_path == "config.php"@ ==> category == PathCategory::Config
            &&& result.real_path != "config.php"@ ==> category != PathCategory::Config
        }),
{
    places_start_with_a_name();
    places_in_dirroot(seq!['x'], "lib/classes/component.php"@);
    places_in_dirroot(seq!['x'], "lib/tests/component_test.php"@);
    places_in_dirroot(seq!['x'], "config.php"@);
}

proof fn places_start_with_a_name()
    ensures
        "lib/classes/component.php"@.len() > 0 && "lib/classes/component.php"@[0] != '/',
        "lib/tests/component_test.php"@.len() > 0 && "lib/tests/component_test.php"@[0] != '/',
        "config.php"@.len() > 0 && "config.php"@[0] != '/',
{
    reveal_strlit("lib/classes/component.php");
    reveal_strlit("lib/tests/component_test.php");
    reveal_strlit("config.php");
}

/// Outside those files, whether a reference comes before the boundary is told by its file and line.
pub proof fn lines_decide_what_is_early(base: Codebase, file: Seq<char>, result: PathView)
    ensures
        ({
            let category = categorised(base, file, result).category;
            let extent = extent_of(base.files, base.segment, file);
            category == PathCategory::PreComponent || category == PathCategory::PreComponentLiteral ==> extent is Some
                && (extent->0).holds(result.line)
        }),
{
}

/// Dirroot is 'public' where the codebase has a setup there, and the repository root where it has none.
pub proof fn dirroot_is_public_or_the_root()
    ensures
        segment_of(spec_dirroot_prefix(true)) == "/public"@,
        segment_of(spec_dirroot_prefix(false)) == ""@,
{
    reveal_strlit("public");
    reveal_strlit("public/");
    reveal_strlit("/public");
    reveal_strlit("/");
    reveal_strlit("");
    let nothing = Seq::<char>::empty();
    slashes_around_dirroot_make_no_difference(nothing, "public"@, seq!['/']);
    assert(nothing + "public"@ + seq!['/'] =~= "public/"@);
    assert("/"@ + "public"@ =~= "/public"@);
    slashes_around_dirroot_make_no_difference(nothing, nothing, nothing);
    assert(nothing + nothing + nothing =~= ""@);
}

/// The roots of plugin types that references are held against are those of the discovered plugin types.
pub proof fn roots_of_plugin_types_are_discovered(scan: &Scan, dirroot: Seq<char>, path: Seq<char>)
    ensures
        codebase(scan, dirroot).plugin_type_roots.contains(path) <==> exists|i: int|
            0 <= i < scan.discovered.plugin_types.spec_values().len() && (
            #[trigger] scan.discovered.plugin_types.spec_values()[i])@ == path,
        codebase(scan, dirroot).dirroot == dirroot,
        codebase(scan, dirroot).files == scan.files@,
{
    let paths = scan.discovered.plugin_types.spec_values();
    let all = texts(paths);
    if all.contains(path) {
        let i = choose|i: int| 0 <= i < all.len() && all[i] == path;
        assert(paths[i]@ == path);
    }
    if exists|i: int| 0 <= i < paths.len() && (#[trigger] paths[i])@ == path {
        let i = choose|i: int| 0 <= i < paths.len() && (#[trigger] paths[i])@ == path;
        assert(all[i] == path);
    }
}

} // verus!
