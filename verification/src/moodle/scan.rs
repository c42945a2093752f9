//! Scans a Moodle codebase for its components and every path reference
//! [`crate::path_finder::find_paths`] can locate across its PHP files, and categorises the result.

use vstd::prelude::*;
use vstd::utf8::decode_utf8;
use vstd::utf8::decode_utf8_encode_utf8;
use vstd::utf8::valid_utf8;

use crate::collections::StringSet;
use crate::collections::contains_push;
use crate::moodle::categorise::KnownPlaces;
use crate::moodle::categorise::PathCategory;
use crate::moodle::categorise::Places;
use crate::moodle::categorise::categorise_in;
use crate::moodle::categorise::category_in;
use crate::moodle::components::ComponentDiscovery;
use crate::moodle::entrypoints::PreComponentExtent;
use crate::moodle::entrypoints::ScannedFiles;
use crate::moodle::entrypoints::component_file;
use crate::moodle::entrypoints::component_locations;
use crate::moodle::entrypoints::config_locations;
use crate::moodle::entrypoints::extent_of;
use crate::moodle::entrypoints::in_dirroot;
use crate::moodle::entrypoints::pre_component_extents;
use crate::moodle::entrypoints::str_of;
use crate::moodle::is_excluded_from_scan;
use crate::moodle::resolver::ComponentResolver;
use crate::moodle::resolver::Directories;
use crate::moodle::resolver::Resolution;
use crate::moodle::resolver::ResolutionView;
use crate::moodle::resolver::directories_of;
use crate::moodle::resolver::resolution;
use crate::moodle::resolver::resolution_view;
use crate::moodle::thirdparty::is_thirdparty;
use crate::moodle::thirdparty::thirdparty_path;
use crate::path_finder::PathNotation;
use crate::path_finder::PathResult;
use crate::path_finder::PathView;
use crate::path_finder::find_paths;
use crate::path_finder::finder::all_code_in_place;
use crate::path_finder::finder::all_sound;
use crate::path_finder::path_views;
use crate::path_finder::references;
use crate::path_finder::source_of;
use crate::path_finder::syntax::forest;
use crate::path_finder::syntax::lossy_text;
use crate::path_finder::syntax::php_nodes;
use crate::path_finder::syntax::utf8_lossy;
use crate::path_finder::text_of;
use crate::text::chars_of;
use crate::text::copy;
use crate::text::ends_with;
use crate::text::join;
use crate::text::join_with;
use crate::text::same;
use crate::text::split;
use crate::text::split_at;
use crate::text::texts;

verus! {

/// The components of a path that lie below `root`; all of them if it does not lie there.
pub open spec fn below_root(root: Seq<Seq<char>>, path: Seq<Seq<char>>) -> Seq<Seq<char>> {
    if root.is_prefix_of(path) {
        path.skip(root.len() as int)
    } else {
        path
    }
}

/// A path relative to `root`, as a forward-slash-separated string; both are given by their
/// components.
pub fn relative_unix_path(root: &Vec<String>, path: &Vec<String>) -> (r: String)
    ensures
        r@ == join(below_root(texts(root@), texts(path@)), seq!['/']),
{
    let ghost outer = texts(root@);
    let ghost whole = texts(path@);
    let mut same_start = root.len() <= path.len();
    let mut i: usize = 0;
    while same_start && i < root.len()
        invariant
            i <= root.len(),
            outer == texts(root@),
            whole == texts(path@),
            same_start ==> root.len() <= path.len(),
            same_start ==> forall|k: int| 0 <= k < i ==> outer[k] == whole[k],
            !same_start ==> !outer.is_prefix_of(whole),
        decreases root.len() - i + if same_start {
            1int
        } else {
            0
        },
    {
        assert(outer[i as int] == root@[i as int]@ && whole[i as int] == path@[i as int]@);
        if same(&root[i], &path[i]) {
            i += 1;
        } else {
            assert(whole.subrange(0, outer.len() as int)[i as int] != outer[i as int]);
            same_start = false;
        }
    }
    proof {
        if same_start {
            assert(whole.subrange(0, outer.len() as int) =~= outer);
        }
        reveal_strlit("/");
        assert("/"@ =~= seq!['/']);
    }
    let from: usize = if same_start {
        root.len()
    } else {
        0
    };
    let mut below: Vec<String> = Vec::new();
    let mut k: usize = from;
    while k < path.len()
        invariant
            from <= k <= path.len(),
            whole == texts(path@),
            texts(below@) == whole.subrange(from as int, k as int),
        decreases path.len() - k,
    {
        let ghost before = texts(below@);
        below.push(copy(&path[k]));
        assert(texts(below@) =~= before.push(whole[k as int]));
        assert(whole.subrange(from as int, k + 1) =~= whole.subrange(from as int, k as int).push(whole[k as int]));
        k += 1;
    }
    assert(texts(below@) =~= below_root(outer, whole));
    join_with(&below, "/")
}

/// Whether a path names a PHP file: one with the extension 'php'.
pub open spec fn php_file(path: Seq<char>) -> bool {
    let name = split(path, '/').last();
    ".php"@.is_suffix_of(name) && name.len() > ".php"@.len()
}

/// Whether a file is eligible for path-finding analysis.
pub open spec fn scanned_file(thirdparty_locations: Set<Seq<char>>, relative_path: Seq<char>) -> bool {
    !thirdparty_path(thirdparty_locations, relative_path) && php_file(relative_path) && relative_path
        != "config-dist.php"@
}

/// Whether a file is eligible for path-finding analysis, filtered identically for every command
/// that scans a codebase: a PHP file, not third-party vendored code, and not anything that
/// [`is_excluded_from_scan`] rules out.
pub fn is_scanned(thirdparty_locations: &StringSet, relative_path: &str) -> (r: bool)
    ensures
        r == scanned_file(thirdparty_locations@, relative_path@),
{
    let parts = split_at(relative_path, '/');
    let name = &parts[parts.len() - 1];
    assert(texts(parts@).last() == name@);
    proof {
        reveal_strlit(".php");
    }
    !is_thirdparty(thirdparty_locations, relative_path) && ends_with(name, ".php") && chars_of(name).len() > 4
        && !is_excluded_from_scan(relative_path)
}

/// A codebase's components, and every path reference found across its PHP files.
#[derive(Debug)]
pub struct Scan {
    pub discovered: ComponentDiscovery,
    pub notation: PathNotation,
    pub files: Vec<(String, Vec<PathResult>)>,
    /// How many PHP files could not be read (and so are missing from `files`).
    pub failed_reads: usize,
}

/// The files that could be read, with their references.
pub open spec fn readable(files: Seq<(String, Option<Vec<PathResult>>)>) -> ScannedFiles
    decreases files.len(),
{
    if files.len() == 0 {
        Seq::empty()
    } else {
        let before = readable(files.drop_last());
        match files.last().1 {
            Some(results) => before.push((files.last().0, results)),
            None => before,
        }
    }
}

impl Scan {
    /// The scan of a codebase with the given components and notation. `files` are its PHP files, each
    /// with its references, or with none where it could not be read.
    pub fn from_discovery(
        discovered: ComponentDiscovery,
        notation: PathNotation,
        files: Vec<(String, Option<Vec<PathResult>>)>,
    ) -> (scan: Scan)
        ensures
            scan.discovered == discovered,
            scan.notation == notation,
            scan.files@ == readable(files@),
            scan.failed_reads == files@.len() - readable(files@).len(),
    {
        let ghost all = files@;
        let mut rest = files;
        let mut read: Vec<(String, Vec<PathResult>)> = Vec::new();
        let mut failed_reads: usize = 0;
        let mut i: usize = 0;
        while i < rest.len()
            invariant
                i <= rest.len(),
                rest@.len() == all.len(),
                forall|k: int| i <= k < all.len() ==> rest@[k] == all[k],
                read@ == readable(all.take(i as int)),
                read@.len() + failed_reads == i,
            decreases rest.len() - i,
        {
            let mut file: (String, Option<Vec<PathResult>>) = (String::new(), None);
            std::mem::swap(&mut file, &mut rest[i]);
            assert(file == all[i as int]);
            assert(all.take(i + 1).drop_last() =~= all.take(i as int));
            assert(all.take(i + 1).last() == all[i as int]);
            match file.1 {
                Some(results) => {
                    read.push((file.0, results));
                },
                None => {
                    failed_reads += 1;
                },
            }
            i += 1;
        }
        assert(all.take(i as int) =~= all);
        Scan { discovered, notation, files: read, failed_reads }
    }
}

/// Every path reference in the file `relative_path` with the contents `bytes`, which are decoded lossily:
/// valid UTF-8 as it stands, so that the places of the references are those in the file itself.
pub fn scan_file(bytes: &[u8], relative_path: &str, notation: &PathNotation) -> (r: Vec<PathResult>)
    ensures
        path_views(r@) == references(
            source_of(utf8_lossy(bytes@), relative_path@, notation.segment()),
            forest(php_nodes(utf8_lossy(bytes@))),
        ),
        all_sound(source_of(utf8_lossy(bytes@), relative_path@, notation.segment()), path_views(r@)),
        all_code_in_place(source_of(utf8_lossy(bytes@), relative_path@, notation.segment()), path_views(r@)),
        valid_utf8(bytes@) ==> utf8_lossy(bytes@) == decode_utf8(bytes@) && source_of(
            utf8_lossy(bytes@),
            relative_path@,
            notation.segment(),
        ).bytes == bytes@,
{
    let source = lossy_text(bytes);
    proof {
        if valid_utf8(bytes@) {
            decode_utf8_encode_utf8(bytes@);
        }
    }
    find_paths(&source, relative_path, notation)
}

/// One path reference, resolved to its source/target components and categorised.
#[derive(Debug)]
pub struct CategorisedReference {
    pub file: String,
    pub result: PathResult,
    pub source_component: Option<String>,
    pub target: Option<Resolution>,
    pub category: PathCategory,
}

/// One categorised path reference, as plain values.
pub struct ReferenceView {
    pub file: Seq<char>,
    pub result: PathView,
    pub source_component: Option<Seq<char>>,
    pub target: Option<ResolutionView>,
    pub category: PathCategory,
}

impl View for CategorisedReference {
    type V = ReferenceView;

    open spec fn view(&self) -> ReferenceView {
        ReferenceView {
            file: self.file@,
            result: self.result@,
            source_component: text_of(self.source_component),
            target: resolution_view(self.target),
            category: self.category,
        }
    }
}

/// Some categorised path references, as plain values.
pub open spec fn reference_views(references: Seq<CategorisedReference>) -> Seq<ReferenceView> {
    Seq::new(references.len(), |i: int| references[i]@)
}

/// What the categories of a codebase's references depend on.
pub struct Codebase {
    pub files: ScannedFiles,
    pub segment: Seq<char>,
    pub directories: Directories,
    pub plugin_type_roots: Set<Seq<char>>,
    pub dirroot: Seq<char>,
}

/// The codebase of a scan.
pub open spec fn codebase(scan: &Scan, dirroot: Seq<char>) -> Codebase {
    Codebase {
        files: scan.files@,
        segment: scan.notation.segment(),
        directories: directories_of(&scan.discovered),
        plugin_type_roots: Set::new(
            |path: Seq<char>| texts(scan.discovered.plugin_types.spec_values()).contains(path),
        ),
        dirroot,
    }
}

/// The component that owns a path.
pub open spec fn owner(directories: Directories, path: Seq<char>) -> Option<Seq<char>> {
    match resolution(directories, path) {
        Some(resolved) => Some(resolved.component),
        None => None,
    }
}

/// A reference in `file`, resolved and categorised.
pub open spec fn categorised(base: Codebase, file: Seq<char>, result: PathView) -> ReferenceView {
    let source_component = owner(base.directories, file);
    let target = resolution(base.directories, result.real_path);
    let places = Places {
        config_locations: set![in_dirroot(base.segment, "config.php"@), "config.php"@],
        plugin_type_roots: base.plugin_type_roots,
        dirroot: base.dirroot,
    };
    let in_component_file = file == component_file(base.segment) || file == in_dirroot(
        base.segment,
        "lib/tests/component_test.php"@,
    );
    ReferenceView {
        file,
        result,
        source_component,
        target,
        category: category_in(
            in_component_file,
            result,
            extent_of(base.files, base.segment, file),
            places,
            source_component,
            target,
        ),
    }
}

/// The references of one file, resolved and categorised.
pub open spec fn categorised_file(base: Codebase, file: (String, Vec<PathResult>)) -> Seq<ReferenceView> {
    Seq::new(file.1@.len(), |k: int| categorised(base, file.0@, file.1@[k]@))
}

/// The references of some files, resolved and categorised, file by file.
pub open spec fn categorised_files(base: Codebase, files: ScannedFiles) -> Seq<ReferenceView>
    decreases files.len(),
{
    if files.len() == 0 {
        Seq::<ReferenceView>::empty()
    } else {
        categorised_files(base, files.drop_last()) + categorised_file(base, files.last())
    }
}

/// The root directories of all plugin types.
fn plugin_type_roots(discovery: &ComponentDiscovery) -> (roots: StringSet)
    ensures
        roots@ == Set::new(|path: Seq<char>| texts(discovery.plugin_types.spec_values()).contains(path)),
{
    let mut roots = StringSet::new();
    let n = discovery.plugin_types.len();
    let ghost all = texts(discovery.plugin_types.spec_values());
    let mut i: usize = 0;
    while i < n
        invariant
            i <= n,
            n == all.len(),
            all == texts(discovery.plugin_types.spec_values()),
            discovery.plugin_types.valid(),
            forall|path: Seq<char>| #[trigger] roots@.contains(path) == all.take(i as int).contains(path),
        decreases n - i,
    {
        let dir = discovery.plugin_types.value_at(i);
        let ghost had = roots@;
        let ghost d = dir@;
        roots.insert(copy(dir));
        assert forall|path: Seq<char>| #[trigger] roots@.contains(path) == all.take(i + 1).contains(path) by {
            assert(had.contains(path) == all.take(i as int).contains(path));
            assert(all.take(i + 1) =~= all.take(i as int).push(d));
            contains_push(all.take(i as int), d, path);
        }
        i += 1;
    }
    assert(all.take(n as int) =~= all);
    assert(roots@ =~= Set::new(|path: Seq<char>| texts(discovery.plugin_types.spec_values()).contains(path)));
    roots
}

fn copy_str(text: &Option<String>) -> (r: Option<String>)
    ensures
        text_of(r) == text_of(*text),
{
    match text {
        Some(t) => Some(copy(t)),
        None => None,
    }
}

/// Resolves and categorises one reference.
fn categorise_one(
    resolver: &ComponentResolver,
    known: &KnownPlaces,
    extent: Option<&PreComponentExtent>,
    file: &str,
    source_component: &Option<String>,
    result: &PathResult,
) -> (r: CategorisedReference)
    ensures
        r@ == (ReferenceView {
            file: file@,
            result: result@,
            source_component: text_of(*source_component),
            target: resolution(resolver.directories(), result.real_path@),
            category: category_in(
                known.component_locations@.contains(file@),
                result@,
                crate::moodle::categorise::extent_ref_view(extent),
                known.places(),
                text_of(*source_component),
                resolution(resolver.directories(), result.real_path@),
            ),
        }),
{
    let target = resolver.resolve(&result.real_path);
    let source = match source_component {
        Some(component) => Some(component.as_str()),
        None => None,
    };
    assert(str_of(source) == text_of(*source_component));
    let category = match &target {
        Some(resolved) => categorise_in(file, result, extent, known, source, Some(resolved)),
        None => categorise_in(file, result, extent, known, source, None),
    };
    CategorisedReference {
        file: copy(file),
        result: result.copy(),
        source_component: copy_str(source_component),
        target,
        category,
    }
}

/// Categorises every path reference in `scan`. `dirroot` is dirroot's own path relative to the
/// repository root, with no leading or trailing slash.
pub fn categorise_all(scan: &Scan, dirroot: &str) -> (r: Vec<CategorisedReference>)
    ensures
        reference_views(r@) == categorised_files(codebase(scan, dirroot@), scan.files@),
{
    let ghost base = codebase(scan, dirroot@);
    let resolver = ComponentResolver::new(&scan.discovered);
    let extents = pre_component_extents(&scan.files, &scan.notation);
    let known = KnownPlaces {
        component_locations: component_locations(&scan.notation),
        config_locations: config_locations(&scan.notation),
        plugin_type_roots: plugin_type_roots(&scan.discovered),
        dirroot: copy(dirroot),
    };
    let mut r: Vec<CategorisedReference> = Vec::new();
    let mut i: usize = 0;
    assert(reference_views(r@) =~= categorised_files(base, scan.files@.take(0)));
    while i < scan.files.len()
        invariant
            i <= scan.files.len(),
            base == codebase(scan, dirroot@),
            resolver.directories() == base.directories,
            known.component_locations@ == set![
                component_file(base.segment),
                in_dirroot(base.segment, "lib/tests/component_test.php"@),
            ],
            known.places() == (Places {
                config_locations: set![in_dirroot(base.segment, "config.php"@), "config.php"@],
                plugin_type_roots: base.plugin_type_roots,
                dirroot: base.dirroot,
            }),
            forall|name: Seq<char>| #[trigger]
                extents@.contains_key(name) == extent_of(base.files, base.segment, name) is Some,
            forall|name: Seq<char>| #[trigger]
                extents@.contains_key(name) ==> extent_of(base.files, base.segment, name) == Some(extents@[name]@),
            reference_views(r@) == categorised_files(base, scan.files@.take(i as int)),
        decreases scan.files.len() - i,
    {
        let file = &scan.files[i].0;
        let results = &scan.files[i].1;
        let ghost own = categorised_file(base, scan.files@[i as int]);
        let ghost before = reference_views(r@);
        let source_component = match resolver.resolve(file) {
            Some(resolved) => Some(resolved.component),
            None => None,
        };
        assert(text_of(source_component) == owner(base.directories, file@));
        let extent = extents.get(file);
        assert(crate::moodle::categorise::extent_ref_view(extent) == extent_of(base.files, base.segment, file@));
        let mut k: usize = 0;
        assert(before =~= before + own.take(0));
        while k < results.len()
            invariant
                i < scan.files.len(),
                k <= results.len(),
                base == codebase(scan, dirroot@),
                resolver.directories() == base.directories,
                *file == scan.files@[i as int].0,
                *results == scan.files@[i as int].1,
                own == categorised_file(base, scan.files@[i as int]),
                known.component_locations@ == set![
                    component_file(base.segment),
                    in_dirroot(base.segment, "lib/tests/component_test.php"@),
                ],
                known.places() == (Places {
                    config_locations: set![in_dirroot(base.segment, "config.php"@), "config.php"@],
                    plugin_type_roots: base.plugin_type_roots,
                    dirroot: base.dirroot,
                }),
                text_of(source_component) == owner(base.directories, file@),
                crate::moodle::categorise::extent_ref_view(extent) == extent_of(base.files, base.segment, file@),
                reference_views(r@) == before + own.take(k as int),
            decreases results.len() - k,
        {
            let reference = categorise_one(&resolver, &known, extent, file, &source_component, &results[k]);
            let ghost now = reference_views(r@);
            assert(reference@ == own[k as int]);
            r.push(reference);
            assert(own.take(k + 1) =~= own.take(k as int).push(own[k as int]));
            assert(reference_views(r@) =~= now.push(own[k as int]));
            assert(reference_views(r@) =~= before + own.take(k + 1));
            k += 1;
        }
        assert(own.take(k as int) =~= own);
        assert(scan.files@.take(i + 1).drop_last() =~= scan.files@.take(i as int));
        i += 1;
    }
    assert(scan.files@.take(i as int) =~= scan.files@);
    r
}

} // verus!
