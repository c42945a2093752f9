//! Resolves a codebase-relative path to the frankenstyle component that owns it.

use vstd::prelude::*;

use crate::collections::StringMap;
use crate::collections::StringSet;
use crate::moodle::components::ComponentDiscovery;
use crate::moodle::components::could_be_plugin_name;
use crate::moodle::components::is_digit;
use crate::moodle::components::is_lower;
use crate::moodle::components::is_reserved_non_plugin_dir;
use crate::moodle::components::possible_plugin_name;
use crate::moodle::components::reserved_non_plugin_dir;
use crate::text::chars_of;
use crate::text::concat3;
use crate::text::concat;
use crate::text::copy;
use crate::text::has_char;
use crate::text::join;
use crate::text::join_undoes_split;
use crate::text::same;
use crate::text::split;
use crate::text::split_at;
use crate::text::split_parts_hold_no_separator;
use crate::text::split_undoes_join;
use crate::text::string_of;
use crate::text::texts;

verus! {

/// The pseudo-component for paths that lie in the repository but outside every real component:
/// 'public/config.php', 'public/backup/backup.class.php', '.github/...', dirroot itself. Resolving
/// to this is a positive answer ("nothing owns this"), as distinct from not resolving at all
/// ("we cannot tell what owns this").
pub const ROOT_COMPONENT: &'static str = "root";

/// A component match: the frankenstyle name, and the path within that component's directory. The
/// leading slash distinguishes three cases that would otherwise collapse into one: an empty
/// `path_in_component` means the path *is* the component's own directory ('public/lib' resolving
/// into `core`, whose directory is exactly that); a lone '/' means the same directory referenced
/// with an explicit trailing slash ('public/lib/'); and e.g. '/x.php' means an actual path within
/// it.
#[derive(Debug, Clone, PartialEq, Eq)]
pub struct Resolution {
    pub component: String,
    pub path_in_component: String,
}

/// What a resolution says, as texts.
pub struct ResolutionView {
    pub component: Seq<char>,
    pub path_in_component: Seq<char>,
}

impl View for Resolution {
    type V = ResolutionView;

    open spec fn view(&self) -> ResolutionView {
        ResolutionView { component: self.component@, path_in_component: self.path_in_component@ }
    }
}

/// What a possible resolution says, as texts.
pub open spec fn resolution_view(resolved: Option<Resolution>) -> Option<ResolutionView> {
    match resolved {
        Some(r) => Some(r@),
        None => None,
    }
}

/// A directory, as its segments from the repository root.
pub type Location = Seq<Seq<char>>;

/// What is known of the directories of a codebase.
pub struct Directories {
    /// The component rooted at a directory.
    pub components: Map<Location, Seq<char>>,
    /// The plugin type rooted at a directory.
    pub plugin_types: Map<Location, Seq<char>>,
    /// The directories of components and plugin types, and all that contain one.
    pub known: Set<Location>,
}

impl Directories {
    /// The directories of components and plugin types are known, and so is what contains a known
    /// directory.
    pub open spec fn consistent(self) -> bool {
        &&& self.known.contains(Seq::<Seq<char>>::empty())
        &&& forall|at: Location, n: int|
            self.known.contains(at) && 0 <= n <= at.len() ==> #[trigger] self.known.contains(at.take(n))
        &&& forall|at: Location| #[trigger] self.components.contains_key(at) ==> self.known.contains(at)
        &&& forall|at: Location| #[trigger] self.plugin_types.contains_key(at) ==> self.known.contains(at)
    }
}

/// The last name, in the given order, whose path is the directory `at`. An empty path is no
/// directory.
pub open spec fn last_at(names: Seq<Seq<char>>, paths: Seq<String>, at: Location) -> Option<Seq<char>>
    decreases names.len(),
{
    if names.len() == 0 {
        None
    } else if paths.last()@.len() > 0 && split(paths.last()@, '/') == at {
        Some(names.last())
    } else {
        last_at(names.drop_last(), paths.drop_last(), at)
    }
}

/// Whether the directory `at` is, or contains, one of `paths`.
pub open spec fn is_on_the_way(paths: Seq<String>, at: Location) -> bool {
    exists|i: int|
        0 <= i < paths.len() && (#[trigger] paths[i])@.len() > 0 && at.is_prefix_of(split(paths[i]@, '/'))
}

/// The directories by name, the last name of a directory winning.
pub open spec fn directory_map(map: &StringMap<String>) -> Map<Location, Seq<char>> {
    Map::new(
        |at: Location| last_at(map.spec_keys(), map.spec_values(), at) is Some,
        |at: Location| last_at(map.spec_keys(), map.spec_values(), at)->0,
    )
}

/// What a discovery tells of the directories of a codebase.
pub open spec fn directories_of(discovery: &ComponentDiscovery) -> Directories {
    Directories {
        components: directory_map(&discovery.components),
        plugin_types: directory_map(&discovery.plugin_types),
        known: Set::new(
            |at: Location|
                at.len() == 0 || is_on_the_way(discovery.components.spec_values(), at) || is_on_the_way(
                    discovery.plugin_types.spec_values(),
                    at,
                ),
        ),
    }
}

/// The segments that name a directory or file: empty ones come from a trailing or doubled slash.
pub open spec fn named(parts: Seq<Seq<char>>) -> Seq<Seq<char>>
    decreases parts.len(),
{
    if parts.len() == 0 {
        parts
    } else if parts.last().len() > 0 {
        named(parts.drop_last()).push(parts.last())
    } else {
        named(parts.drop_last())
    }
}

/// Where in the joined text each named segment ends.
pub open spec fn named_ends(parts: Seq<Seq<char>>) -> Seq<int>
    decreases parts.len(),
{
    if parts.len() == 0 {
        Seq::<int>::empty()
    } else if parts.last().len() > 0 {
        named_ends(parts.drop_last()).push(join(parts, seq!['/']).len() as int)
    } else {
        named_ends(parts.drop_last())
    }
}

/// The part of `path` left over after its first `consumed` named segments, verbatim; the whole of
/// it, with a slash in front, where nothing was consumed.
pub open spec fn remainder_of(path: Seq<char>, consumed: int) -> Seq<char> {
    if consumed > 0 {
        path.skip(named_ends(split(path, '/'))[consumed - 1])
    } else if path.len() == 0 {
        path
    } else {
        seq!['/'] + path
    }
}

/// Whether `segment` is entirely a single dynamic marker (e.g. '{$themename}'), with no literal
/// text alongside it.
pub open spec fn whole_dynamic_segment(segment: Seq<char>) -> bool {
    segment.len() > 0 && segment[0] == '{' && segment.last() == '}'
}

/// The characters of ordinary file names.
pub open spec fn is_plain_char(c: char) -> bool {
    ||| 'a' <= c <= 'z'
    ||| 'A' <= c <= 'Z'
    ||| '0' <= c <= '9'
    ||| c == '.'
    ||| c == '_'
    ||| c == '-'
    ||| c == '+'
    ||| c == '@'
    ||| c == '~'
    ||| c == ' '
}

/// Whether `segment` is an ordinary, literal file or directory name.
pub open spec fn plain_segment(segment: Seq<char>) -> bool {
    &&& segment.len() > 0
    &&& segment != "."@
    &&& segment != ".."@
    &&& forall|i: int| 0 <= i < segment.len() ==> is_plain_char(#[trigger] segment[i])
}

/// Whether a path that matched no component is certainly owned by no component, given the segments
/// below the last directory that it matched.
pub open spec fn certainly_outside(unmatched: Seq<Seq<char>>) -> bool {
    unmatched.len() > 0 ==> {
        &&& plain_segment(unmatched[0])
        &&& forall|i: int|
            1 <= i < unmatched.len() ==> plain_segment(#[trigger] unmatched[i]) || unmatched[i].contains('{')
    }
}

/// Whether segment `i` names a plugin that could exist below a plugin type's root, known or not.
pub open spec fn names_plugin(dirs: Directories, segments: Seq<Seq<char>>, i: int) -> bool {
    &&& dirs.plugin_types.contains_key(segments.take(i))
    &&& {
        ||| whole_dynamic_segment(segments[i])
        ||| !dirs.known.contains(segments.take(i + 1)) && possible_plugin_name(segments[i])
            && !reserved_non_plugin_dir(dirs.plugin_types[segments.take(i)], segments[i])
    }
}

/// The first segment from `i` on that names a plugin which is not a known directory.
pub open spec fn first_plugin(dirs: Directories, segments: Seq<Seq<char>>, i: int) -> Option<int>
    decreases segments.len() - i,
{
    if i >= segments.len() {
        None
    } else if names_plugin(dirs, segments, i) {
        Some(i)
    } else {
        first_plugin(dirs, segments, i + 1)
    }
}

/// How many of the first `n` segments lead to the most specific component directory.
pub open spec fn deepest_component(dirs: Directories, segments: Seq<Seq<char>>, n: int) -> Option<int>
    decreases n + 1,
{
    if n < 0 {
        None
    } else if dirs.components.contains_key(segments.take(n)) {
        Some(n)
    } else {
        deepest_component(dirs, segments, n - 1)
    }
}

/// How many of the first `n` segments lead to the most specific known directory.
pub open spec fn deepest_known(dirs: Directories, segments: Seq<Seq<char>>, n: int) -> int
    decreases n,
{
    if n <= 0 || dirs.known.contains(segments.take(n)) {
        n
    } else {
        deepest_known(dirs, segments, n - 1)
    }
}

/// The component that owns `path`, and the path within it: a plugin named by the path below a
/// plugin type's root, else the most specific component directory that contains it, else the root
/// pseudo-component where nothing can own it.
pub open spec fn resolution(dirs: Directories, path: Seq<char>) -> Option<ResolutionView> {
    let segments = named(split(path, '/'));
    let n = segments.len() as int;
    match first_plugin(dirs, segments, 0) {
        Some(i) => Some(
            ResolutionView {
                component: dirs.plugin_types[segments.take(i)] + seq!['_'] + segments[i],
                path_in_component: remainder_of(path, i + 1),
            },
        ),
        None => match deepest_component(dirs, segments, n) {
            Some(consumed) => Some(
                ResolutionView {
                    component: dirs.components[segments.take(consumed)],
                    path_in_component: remainder_of(path, consumed),
                },
            ),
            None => if certainly_outside(segments.skip(deepest_known(dirs, segments, n))) {
                Some(
                    ResolutionView { component: ROOT_COMPONENT@, path_in_component: remainder_of(path, 0) },
                )
            } else {
                None
            },
        },
    }
}

/// Whether no segment of `at` holds a slash.
spec fn is_clean(at: Location) -> bool {
    forall|i: int| 0 <= i < at.len() ==> !(#[trigger] at[i]).contains('/')
}

/// The directories of a map from joined paths.
spec fn located(by_path: Map<Seq<char>, String>) -> Map<Location, Seq<char>> {
    Map::new(
        |at: Location| at.len() > 0 && is_clean(at) && by_path.contains_key(join(at, seq!['/'])),
        |at: Location| by_path[join(at, seq!['/'])]@,
    )
}

/// The directories of a set of joined paths.
spec fn reached(known: Set<Seq<char>>) -> Set<Location> {
    Set::new(|at: Location| at.len() == 0 || is_clean(at) && known.contains(join(at, seq!['/'])))
}

/// A path has only clean segments, and at least one.
proof fn split_is_clean(path: Seq<char>)
    ensures
        is_clean(split(path, '/')),
        split(path, '/').len() > 0,
        join(split(path, '/'), seq!['/']) == path,
{
    split_parts_hold_no_separator(path, '/');
    join_undoes_split(path, '/');
}

/// A path names the directory `at` exactly if it is its joined form.
proof fn split_is_joined(path: Seq<char>, at: Location)
    requires
        at.len() > 0,
        is_clean(at),
    ensures
        (split(path, '/') == at) == (path == join(at, seq!['/'])),
{
    split_is_clean(path);
    split_undoes_join(at, '/');
}

/// No name is found at a location that no path can have.
proof fn nothing_at_unclean(names: Seq<Seq<char>>, paths: Seq<String>, at: Location)
    requires
        names.len() == paths.len(),
        at.len() == 0 || !is_clean(at),
    ensures
        last_at(names, paths, at) is None,
    decreases names.len(),
{
    if names.len() > 0 {
        split_is_clean(paths.last()@);
        nothing_at_unclean(names.drop_last(), paths.drop_last(), at);
    }
}

/// A directory with a name is one of the paths.
proof fn last_at_is_a_path(names: Seq<Seq<char>>, paths: Seq<String>, at: Location)
    requires
        names.len() == paths.len(),
        last_at(names, paths, at) is Some,
    ensures
        is_on_the_way(paths, at),
    decreases names.len(),
{
    if paths.last()@.len() > 0 && split(paths.last()@, '/') == at {
        assert(at.subrange(0, at.len() as int) =~= at);
        assert(paths[paths.len() - 1]@.len() > 0);
        assert(at.is_prefix_of(split(paths[paths.len() - 1]@, '/')));
    } else {
        last_at_is_a_path(names.drop_last(), paths.drop_last(), at);
        let i = choose|i: int|
            0 <= i < paths.drop_last().len() && (#[trigger] paths.drop_last()[i])@.len() > 0 && at.is_prefix_of(
                split(paths.drop_last()[i]@, '/'),
            );
        assert(paths[i]@ == paths.drop_last()[i]@);
    }
}

/// What a discovery tells is consistent.
pub proof fn directories_are_consistent(discovery: &ComponentDiscovery)
    requires
        discovery.components.valid(),
        discovery.plugin_types.valid(),
    ensures
        directories_of(discovery).consistent(),
{
    let dirs = directories_of(discovery);
    assert forall|at: Location, n: int|
        dirs.known.contains(at) && 0 <= n <= at.len() implies #[trigger] dirs.known.contains(at.take(n)) by {
        if at.len() > 0 && n > 0 {
            let (paths, i) = if is_on_the_way(discovery.components.spec_values(), at) {
                let paths = discovery.components.spec_values();
                (
                    paths,
                    choose|i: int|
                        0 <= i < paths.len() && (#[trigger] paths[i])@.len() > 0 && at.is_prefix_of(
                            split(paths[i]@, '/'),
                        ),
                )
            } else {
                let paths = discovery.plugin_types.spec_values();
                (
                    paths,
                    choose|i: int|
                        0 <= i < paths.len() && (#[trigger] paths[i])@.len() > 0 && at.is_prefix_of(
                            split(paths[i]@, '/'),
                        ),
                )
            };
            let whole = split(paths[i]@, '/');
            assert(whole.subrange(0, n) =~= at.take(n)) by {
                assert(whole.subrange(0, at.len() as int) =~= at);
                assert forall|k: int| 0 <= k < n implies whole[k] == at[k] by {
                    assert(whole.subrange(0, at.len() as int)[k] == whole[k]);
                }
            }
            assert(at.take(n).is_prefix_of(split(paths[i]@, '/')));
            assert(is_on_the_way(paths, at.take(n)));
        }
    }
    assert forall|at: Location| #[trigger] dirs.components.contains_key(at) implies dirs.known.contains(at) by {
        last_at_is_a_path(discovery.components.spec_keys(), discovery.components.spec_values(), at);
    }
    assert forall|at: Location| #[trigger] dirs.plugin_types.contains_key(at) implies dirs.known.contains(at) by {
        last_at_is_a_path(discovery.plugin_types.spec_keys(), discovery.plugin_types.spec_values(), at);
    }
}

/// The names of `map` by the paths they have.
fn by_path(map: &StringMap<String>) -> (index: StringMap<String>)
    ensures
        located(index@) == directory_map(map),
        map.valid(),
{
    let n = map.len();
    let mut index: StringMap<String> = StringMap::new();
    let mut i: usize = 0;
    let ghost names = map.spec_keys();
    let ghost paths = map.spec_values();
    while i < n
        invariant
            i <= n,
            n == names.len(),
            map.valid(),
            names == map.spec_keys(),
            paths == map.spec_values(),
            forall|at: Location|
                at.len() > 0 && is_clean(at) ==> {
                    let found = #[trigger] last_at(names.take(i as int), paths.take(i as int), at);
                    &&& index@.contains_key(join(at, seq!['/'])) == (found is Some)
                    &&& found is Some ==> index@[join(at, seq!['/'])]@ == found->0
                },
        decreases n - i,
    {
        let path = map.value_at(i);
        let ghost before = index@;
        if !path.as_str().is_empty() {
            index.insert(copy(path), copy(map.key_at(i)));
        }
        assert(names.take(i + 1).drop_last() =~= names.take(i as int));
        assert(paths.take(i + 1).drop_last() =~= paths.take(i as int));
        assert forall|at: Location| at.len() > 0 && is_clean(at) implies ({
            let found = #[trigger] last_at(names.take(i + 1), paths.take(i + 1), at);
            &&& index@.contains_key(join(at, seq!['/'])) == (found is Some)
            &&& found is Some ==> index@[join(at, seq!['/'])]@ == found->0
        }) by {
            split_is_joined(path@, at);
            let found = last_at(names.take(i as int), paths.take(i as int), at);
            assert(before.contains_key(join(at, seq!['/'])) == (found is Some));
        }
        i += 1;
    }
    proof {
        assert(names.take(n as int) =~= names);
        assert(paths.take(n as int) =~= paths);
        assert forall|at: Location| located(index@).contains_key(at) == directory_map(map).contains_key(at) by {
            if at.len() > 0 && is_clean(at) {
                assert(index@.contains_key(join(at, seq!['/'])) == (last_at(names, paths, at) is Some));
            } else {
                nothing_at_unclean(names, paths, at);
            }
        }
        assert(located(index@) =~= directory_map(map));
    }
    index
}

/// Adds to `known` the directories of `map`, and all that contain one.
fn add_ways(known: &mut StringSet, map: &StringMap<String>)
    ensures
        forall|at: Location|
            at.len() > 0 && is_clean(at) ==> #[trigger] final(known)@.contains(join(at, seq!['/'])) == (old(
                known,
            )@.contains(join(at, seq!['/'])) || is_on_the_way(map.spec_values(), at)),
{
    let n = map.len();
    let ghost before = known@;
    let ghost paths = map.spec_values();
    let mut i: usize = 0;
    assert forall|at: Location| #[trigger] is_on_the_way(paths.take(0), at) == false by {}
    while i < n
        invariant
            i <= n,
            n == paths.len(),
            map.valid(),
            paths == map.spec_values(),
            forall|at: Location|
                at.len() > 0 && is_clean(at) ==> #[trigger] known@.contains(join(at, seq!['/'])) == (before.contains(
                    join(at, seq!['/']),
                ) || is_on_the_way(paths.take(i as int), at)),
        decreases n - i,
    {
        let path = map.value_at(i);
        if !path.as_str().is_empty() {
            let parts = split_at(path, '/');
            let ghost all = texts(parts@);
            let ghost start = known@;
            let mut prefix = String::new();
            let mut k: usize = 0;
            assert(join(all.take(0), seq!['/']) =~= Seq::<char>::empty());
            proof {
                split_is_clean(path@);
                reveal_strlit("/");
                assert("/"@ =~= seq!['/']);
            }
            while k < parts.len()
                invariant
                    k <= parts.len(),
                    all == texts(parts@),
                    prefix@ == join(all.take(k as int), seq!['/']),
                    "/"@ == seq!['/'],
                    forall|p: Seq<char>| #[trigger]
                        known@.contains(p) == (start.contains(p) || exists|m: int|
                            1 <= m <= k && p == join(#[trigger] all.take(m), seq!['/'])),
                decreases parts.len() - k,
            {
                let ghost earlier = known@;
                assert(all.take(k + 1).drop_last() =~= all.take(k as int));
                prefix = if k == 0 {
                    copy(&parts[0])
                } else {
                    concat3(&prefix, "/", &parts[k])
                };
                assert(prefix@ =~= join(all.take(k + 1), seq!['/']));
                known.insert(copy(&prefix));
                k += 1;
                assert forall|p: Seq<char>| #[trigger]
                    known@.contains(p) == (start.contains(p) || exists|m: int|
                        1 <= m <= k && p == join(#[trigger] all.take(m), seq!['/'])) by {
                    assert(earlier.contains(p) == (start.contains(p) || exists|m: int|
                        1 <= m <= k - 1 && p == join(#[trigger] all.take(m), seq!['/'])));
                    if p == prefix@ {
                        assert(p == join(all.take(k as int), seq!['/']));
                    }
                }
            }
            assert forall|at: Location| at.len() > 0 && is_clean(at) implies #[trigger] known@.contains(
                join(at, seq!['/']),
            ) == (before.contains(join(at, seq!['/'])) || is_on_the_way(paths.take(i + 1), at)) by {
                let p = join(at, seq!['/']);
                ways_through(all, at);
                assert(start.contains(p) == (before.contains(p) || is_on_the_way(paths.take(i as int), at)));
                on_the_way_step(paths, i as int, at);
            }
        } else {
            assert forall|at: Location| at.len() > 0 && is_clean(at) implies #[trigger] known@.contains(
                join(at, seq!['/']),
            ) == (before.contains(join(at, seq!['/'])) || is_on_the_way(paths.take(i + 1), at)) by {
                on_the_way_step(paths, i as int, at);
            }
        }
        i += 1;
    }
    assert(paths.take(n as int) =~= paths);
}

/// One more path adds the ways that it has.
proof fn on_the_way_step(paths: Seq<String>, i: int, at: Location)
    requires
        0 <= i < paths.len(),
    ensures
        is_on_the_way(paths.take(i + 1), at) == (is_on_the_way(paths.take(i), at) || paths[i]@.len() > 0
            && at.is_prefix_of(split(paths[i]@, '/'))),
{
    if is_on_the_way(paths.take(i), at) {
        let k = choose|k: int|
            0 <= k < paths.take(i).len() && (#[trigger] paths.take(i)[k])@.len() > 0 && at.is_prefix_of(
                split(paths.take(i)[k]@, '/'),
            );
        assert(paths.take(i + 1)[k]@ == paths.take(i)[k]@);
    }
    if paths[i]@.len() > 0 && at.is_prefix_of(split(paths[i]@, '/')) {
        assert(paths.take(i + 1)[i]@ == paths[i]@);
    }
    if is_on_the_way(paths.take(i + 1), at) {
        let k = choose|k: int|
            0 <= k < paths.take(i + 1).len() && (#[trigger] paths.take(i + 1)[k])@.len() > 0 && at.is_prefix_of(
                split(paths.take(i + 1)[k]@, '/'),
            );
        if k < i {
            assert(paths.take(i)[k]@ == paths.take(i + 1)[k]@);
        }
    }
}

/// The joined prefixes of a directory are those of the directories that contain it.
proof fn ways_through(all: Seq<Seq<char>>, at: Location)
    requires
        is_clean(all),
        is_clean(at),
        at.len() > 0,
    ensures
        (exists|m: int| 1 <= m <= all.len() && join(at, seq!['/']) == join(#[trigger] all.take(m), seq!['/']))
            == at.is_prefix_of(all),
{
    if exists|m: int| 1 <= m <= all.len() && join(at, seq!['/']) == join(#[trigger] all.take(m), seq!['/']) {
        let m = choose|m: int|
            1 <= m <= all.len() && join(at, seq!['/']) == join(#[trigger] all.take(m), seq!['/']);
        assert(is_clean(all.take(m)));
        split_undoes_join(at, '/');
        split_undoes_join(all.take(m), '/');
        assert(all.subrange(0, m) =~= all.take(m));
    }
    if at.is_prefix_of(all) {
        assert(all.take(at.len() as int) =~= at);
    }
}

/// The known component and plugin type directories of a codebase, used to resolve a path to the
/// most specific component that contains it.
#[derive(Debug)]
pub struct ComponentResolver {
    components: StringMap<String>,
    plugin_types: StringMap<String>,
    known: StringSet,
}

impl ComponentResolver {
    /// The directories that the resolver knows.
    pub closed spec fn directories(&self) -> Directories {
        Directories {
            components: located(self.components@),
            plugin_types: located(self.plugin_types@),
            known: reached(self.known@),
        }
    }

    #[verifier::type_invariant]
    closed spec fn directories_consistent(self) -> bool {
        self.directories().consistent()
    }

    /// Builds a resolver from the components discovered in a codebase. Subsystems without a
    /// directory of their own have an empty path; there is nothing to index for them.
    pub fn new(discovery: &ComponentDiscovery) -> (resolver: Self)
        ensures
            resolver.directories() == directories_of(discovery),
    {
        let components = by_path(&discovery.components);
        let plugin_types = by_path(&discovery.plugin_types);
        let mut known = StringSet::new();
        add_ways(&mut known, &discovery.components);
        let ghost middle = known@;
        add_ways(&mut known, &discovery.plugin_types);
        proof {
            let dirs = directories_of(discovery);
            assert forall|at: Location| reached(known@).contains(at) == dirs.known.contains(at) by {
                if at.len() > 0 {
                    if is_clean(at) {
                        assert(middle.contains(join(at, seq!['/'])) == is_on_the_way(
                            discovery.components.spec_values(),
                            at,
                        ));
                        assert(known@.contains(join(at, seq!['/'])) == (middle.contains(join(at, seq!['/']))
                            || is_on_the_way(discovery.plugin_types.spec_values(), at)));
                    } else {
                        no_way_to_unclean(discovery.components.spec_values(), at);
                        no_way_to_unclean(discovery.plugin_types.spec_values(), at);
                    }
                }
            }
            assert(reached(known@) =~= dirs.known);
            directories_are_consistent(discovery);
        }
        ComponentResolver { components, plugin_types, known }
    }

    /// Resolves `path` to the most specific component that contains it, along with the path
    /// within that component's directory. Falls back to the [`ROOT_COMPONENT`] pseudo-component
    /// when no component matches but the path can be shown to be outside all of them; since that
    /// pseudo-component's directory is the repository root, its `path_in_component` is `path`
    /// itself with a leading slash spliced on. Returns `None` when no component matches and that
    /// cannot be established.
    ///
    /// `path_in_component` is always a verbatim slice of `path` (never rebuilt by rejoining
    /// segments), so a doubled or trailing slash coming from how the source expression
    /// concatenated the path survives untouched into the output.
    ///
    /// A path segment immediately below a known plugin type's root directory synthesises a
    /// component `{plugin_type}_{segment}` whenever it names a plugin that could exist there,
    /// whether or not this codebase actually has one by that name: the frankenstyle name is
    /// determined by the directory structure alone. This covers two forms: a dynamic marker (e.g.
    /// resolving 'theme/{$themename}/config.php' to 'theme_{$themename}'), which must occupy a
    /// whole segment on its own; and a literal name that passes Moodle's own plugin-naming rules,
    /// is not a known directory, and is not one of the fixed non-plugin subdirectories every plugin
    /// type root reserves, such as 'tests' or 'classes'.
    pub fn resolve(&self, path: &str) -> (resolved: Option<Resolution>)
        ensures
            resolution_view(resolved) == resolution(self.directories(), path@),
    {
        proof {
            use_type_invariant(self);
        }
        let ghost dirs = self.directories();
        let (segments, ends) = segments_of(path);
        let ghost all = texts(segments@);
        let ghost n = all.len() as int;
        proof {
            named_is_clean(split(path@, '/'));
            split_is_clean(path@);
            reveal_strlit("/");
            reveal_strlit("_");
            assert("/"@ =~= seq!['/']);
            assert("_"@ =~= seq!['_']);
            assert(all.take(0) =~= Seq::<Seq<char>>::empty());
            assert(!dirs.components.contains_key(all.take(0)));
            assert(deepest_component(dirs, all, -1) is None);
            assert(deepest_component(dirs, all, 0) is None);
        }
        let mut at = String::new();
        let mut best: Option<(usize, String)> = None;
        let mut matched: usize = 0;
        let mut i: usize = 0;
        let mut stopped = false;
        while i < segments.len() && !stopped
            invariant
                i <= segments.len(),
                n == segments.len(),
                all == texts(segments@),
                all == named(split(path@, '/')),
                is_clean(all),
                ends.len() == n,
                ends.len() == named_ends(split(path@, '/')).len(),
                forall|k: int| 0 <= k < n ==> ends@[k] == named_ends(split(path@, '/'))[k],
                forall|k: int| 0 <= k < n ==> ends@[k] <= path@.len(),
                dirs == self.directories(),
                dirs.consistent(),
                "/"@ == seq!['/'],
                "_"@ == seq!['_'],
                at@ == join(all.take(i as int), seq!['/']),
                first_plugin(dirs, all, 0) == first_plugin(dirs, all, i as int),
                matched <= i,
                dirs.known.contains(all.take(matched as int)),
                !stopped ==> matched == i,
                stopped ==> i > matched && !dirs.known.contains(all.take(matched + 1)),
                stopped ==> first_plugin(dirs, all, 0) is None,
                match best {
                    None => deepest_component(dirs, all, matched as int) is None,
                    Some(found) => deepest_component(dirs, all, matched as int) == Some(found.0 as int)
                        && found.0 <= matched && found.1@ == dirs.components[all.take(found.0 as int)],
                },
            decreases segments.len() - i,
        {
            let segment = &segments[i];
            let next = if i == 0 {
                copy(segment)
            } else {
                concat3(&at, "/", segment)
            };
            assert(all.take(i + 1).drop_last() =~= all.take(i as int));
            assert(next@ == join(all.take(i + 1), seq!['/']));
            assert(is_clean(all.take(i + 1)));
            assert(is_clean(all.take(i as int)));
            let is_known = self.known.contains(&next);
            assert(is_known == dirs.known.contains(all.take(i + 1)));
            let plugin_type = if i == 0 {
                None
            } else {
                self.plugin_types.get(&at)
            };
            assert(plugin_type is Some == dirs.plugin_types.contains_key(all.take(i as int)));
            if let Some(plugin_type) = plugin_type {
                if is_whole_dynamic_segment(segment) || !is_known && could_be_plugin_name(segment)
                    && !is_reserved_non_plugin_dir(plugin_type, segment) {
                    assert(names_plugin(dirs, all, i as int));
                    return Some(
                        Resolution {
                            component: concat3(plugin_type, "_", segment),
                            path_in_component: remainder(path, &ends, i + 1),
                        },
                    );
                }
            }
            assert(!names_plugin(dirs, all, i as int));
            if is_known {
                at = next;
                matched = i + 1;
                if let Some(component) = self.components.get(&at) {
                    best = Some((i + 1, copy(component)));
                }
            } else {
                stopped = true;
                proof {
                    nothing_below_unknown(dirs, all, i + 1, i + 1);
                }
                at = next;
            }
            i += 1;
        }
        proof {
            if stopped {
                components_end_at(dirs, all, matched + 1, n);
            } else {
                assert(matched == n);
            }
        }
        if let Some((consumed, component)) = best {
            return Some(Resolution { component, path_in_component: remainder(path, &ends, consumed) });
        }
        if is_certainly_outside_every_component(&segments, matched) {
            Some(Resolution { component: copy(ROOT_COMPONENT), path_in_component: remainder(path, &ends, 0) })
        } else {
            None
        }
    }
}

/// Below an unknown directory nothing is known, so no segment names a plugin there.
proof fn nothing_below_unknown(dirs: Directories, segments: Seq<Seq<char>>, m: int, i: int)
    requires
        dirs.consistent(),
        0 <= m <= i,
        m <= segments.len(),
        !dirs.known.contains(segments.take(m)),
    ensures
        first_plugin(dirs, segments, i) is None,
    decreases segments.len() - i,
{
    if i < segments.len() {
        assert(segments.take(i).take(m) =~= segments.take(m));
        assert(!dirs.known.contains(segments.take(i)));
        nothing_below_unknown(dirs, segments, m, i + 1);
    }
}

/// Below an unknown directory there are no component directories either.
proof fn components_end_at(dirs: Directories, segments: Seq<Seq<char>>, m: int, n: int)
    requires
        dirs.consistent(),
        1 <= m <= n <= segments.len(),
        !dirs.known.contains(segments.take(m)),
        dirs.known.contains(segments.take(m - 1)),
    ensures
        deepest_component(dirs, segments, n) == deepest_component(dirs, segments, m - 1),
        deepest_known(dirs, segments, n) == m - 1,
    decreases n,
{
    assert(segments.take(n).take(m) =~= segments.take(m));
    assert(!dirs.known.contains(segments.take(n)));
    assert(deepest_known(dirs, segments, m - 1) == m - 1);
    if n > m {
        components_end_at(dirs, segments, m, n - 1);
    }
}

/// Dropping empty segments keeps the others clean, and as many as there are ends.
proof fn named_is_clean(parts: Seq<Seq<char>>)
    ensures
        is_clean(parts) ==> is_clean(named(parts)),
        named(parts).len() == named_ends(parts).len(),
    decreases parts.len(),
{
    if parts.len() > 0 {
        named_is_clean(parts.drop_last());
        if is_clean(parts) {
            assert(is_clean(parts.drop_last())) by {
                assert forall|i: int| 0 <= i < parts.drop_last().len() implies !(#[trigger] parts.drop_last()[i]).contains(
                    '/',
                ) by {
                    assert(!parts[i].contains('/'));
                }
            }
            assert(!parts[parts.len() - 1].contains('/'));
        }
    }
}

/// The named segments of a path, and where each ends.
fn segments_of(path: &str) -> (r: (Vec<String>, Vec<usize>))
    ensures
        texts(r.0@) == named(split(path@, '/')),
        r.0.len() == r.1.len(),
        r.1.len() == named_ends(split(path@, '/')).len(),
        forall|k: int| 0 <= k < r.1.len() ==> r.1@[k] == named_ends(split(path@, '/'))[k],
        forall|k: int| 0 <= k < r.1.len() ==> r.1@[k] <= path@.len(),
{
    let length = chars_of(path).len();
    let parts = split_at(path, '/');
    let ghost all = texts(parts@);
    let mut segments: Vec<String> = Vec::new();
    let mut ends: Vec<usize> = Vec::new();
    let mut end: usize = 0;
    let mut i: usize = 0;
    proof {
        join_undoes_split(path@, '/');
        assert(all.take(0) =~= Seq::<Seq<char>>::empty());
        assert(texts(segments@) =~= named(all.take(0)));
        assert(join(all.take(0), seq!['/']) =~= Seq::<char>::empty());
    }
    while i < parts.len()
        invariant
            i <= parts.len(),
            all == texts(parts@),
            all == split(path@, '/'),
            join(all, seq!['/']) == path@,
            length == path@.len(),
            end == join(all.take(i as int), seq!['/']).len(),
            texts(segments@) == named(all.take(i as int)),
            segments.len() == ends.len(),
            ends.len() == named_ends(all.take(i as int)).len(),
            forall|k: int| 0 <= k < ends.len() ==> ends@[k] == named_ends(all.take(i as int))[k],
            forall|k: int| 0 <= k < ends.len() ==> ends@[k] <= length,
        decreases parts.len() - i,
    {
        let part = &parts[i];
        assert(all.take(i + 1).drop_last() =~= all.take(i as int));
        proof {
            join_grows(all, i + 1);
        }
        let size = chars_of(part).len();
        end = if i == 0 {
            size
        } else {
            end + 1 + size
        };
        if size > 0 {
            let ghost before = texts(segments@);
            segments.push(copy(part));
            ends.push(end);
            assert(texts(segments@) =~= before.push(part@));
        }
        i += 1;
    }
    assert(all.take(i as int) =~= all);
    (segments, ends)
}

/// What is joined of the first pieces is no longer than what is joined of all.
proof fn join_grows(parts: Seq<Seq<char>>, n: int)
    requires
        0 <= n <= parts.len(),
    ensures
        join(parts.take(n), seq!['/']).len() <= join(parts, seq!['/']).len(),
    decreases parts.len(),
{
    if n < parts.len() {
        join_grows(parts.drop_last(), n);
        assert(parts.drop_last().take(n) =~= parts.take(n));
    } else {
        assert(parts.take(n) =~= parts);
    }
}

/// The part of `path` left over after its first `consumed` named segments, verbatim, with a
/// leading slash spliced on when `consumed` is 0 (since `path` itself, being repository-relative,
/// never has one). Keeping that slash is what lets an empty `path_in_component` mean "is the
/// component's own directory" while '/' distinctly means "that same directory, referenced with an
/// explicit trailing slash".
fn remainder(path: &str, ends: &Vec<usize>, consumed: usize) -> (r: String)
    requires
        consumed <= ends.len(),
        ends.len() == named_ends(split(path@, '/')).len(),
        forall|k: int| 0 <= k < ends.len() ==> ends@[k] == named_ends(split(path@, '/'))[k],
        forall|k: int| 0 <= k < ends.len() ==> ends@[k] <= path@.len(),
    ensures
        r@ == remainder_of(path@, consumed as int),
{
    if consumed == 0 {
        proof {
            reveal_strlit("/");
            assert("/"@ =~= seq!['/']);
        }
        if path.is_empty() {
            String::new()
        } else {
            concat("/", path)
        }
    } else {
        let chars = chars_of(path);
        string_of(&chars, ends[consumed - 1], chars.len())
    }
}

/// Whether a path that matched no component is certainly owned by no component, rather than
/// merely not matching one. The segments from `matched` on are those below wherever the search for
/// known directories stopped.
///
/// The first of them is the one that was looked up and not found; if it is a '{...}' marker rather
/// than a plain name, its real value might have matched something after all, so it is refused.
/// Everything after it was never looked up against anything, so a '{...}' marker there is just an
/// unknown value inside a directory that is already known to belong to no component. What is
/// refused wherever it appears is anything that is neither a plain literal name nor a '{...}'
/// marker: a '..' segment, a backslash, a glob or a URL query string.
fn is_certainly_outside_every_component(segments: &Vec<String>, matched: usize) -> (r: bool)
    requires
        matched <= segments.len(),
    ensures
        r == certainly_outside(texts(segments@).skip(matched as int)),
{
    let ghost unmatched = texts(segments@).skip(matched as int);
    if matched == segments.len() {
        return true;
    }
    assert(unmatched[0] == segments@[matched as int]@);
    if !is_plain_segment(&segments[matched]) {
        return false;
    }
    let mut i: usize = matched + 1;
    while i < segments.len()
        invariant
            matched < i <= segments.len(),
            unmatched == texts(segments@).skip(matched as int),
            forall|k: int|
                1 <= k < i - matched ==> plain_segment(#[trigger] unmatched[k]) || unmatched[k].contains('{'),
        decreases segments.len() - i,
    {
        assert(unmatched[i - matched] == segments@[i as int]@);
        if !is_plain_segment(&segments[i]) && !has_char(&segments[i], '{') {
            return false;
        }
        i += 1;
    }
    true
}

/// Whether `segment` is an ordinary, literal file or directory name.
fn is_plain_segment(segment: &str) -> (r: bool)
    ensures
        r == plain_segment(segment@),
{
    if segment.is_empty() || same(segment, ".") || same(segment, "..") {
        return false;
    }
    let chars = chars_of(segment);
    let mut i: usize = 0;
    while i < chars.len()
        invariant
            i <= chars.len(),
            chars@ == segment@,
            forall|k: int| 0 <= k < i ==> is_plain_char(#[trigger] segment@[k]),
        decreases chars.len() - i,
    {
        let c = chars[i];
        if !('a' <= c && c <= 'z' || 'A' <= c && c <= 'Z' || '0' <= c && c <= '9' || c == '.' || c == '_' || c
            == '-' || c == '+' || c == '@' || c == '~' || c == ' ') {
            assert(!is_plain_char(segment@[i as int]));
            return false;
        }
        i += 1;
    }
    true
}

/// Whether `segment` is entirely a single dynamic marker (e.g. '{$themename}'), with no literal
/// text alongside it.
fn is_whole_dynamic_segment(segment: &str) -> (r: bool)
    ensures
        r == whole_dynamic_segment(segment@),
{
    let chars = chars_of(segment);
    chars.len() > 0 && chars[0] == '{' && chars[chars.len() - 1] == '}'
}

/// No path leads to a location that no path can have.
proof fn no_way_to_unclean(paths: Seq<String>, at: Location)
    requires
        !is_clean(at),
    ensures
        !is_on_the_way(paths, at),
{
    if is_on_the_way(paths, at) {
        let i = choose|i: int|
            0 <= i < paths.len() && (#[trigger] paths[i])@.len() > 0 && at.is_prefix_of(split(paths[i]@, '/'));
        let whole = split(paths[i]@, '/');
        split_is_clean(paths[i]@);
        assert forall|k: int| 0 <= k < at.len() implies !(#[trigger] at[k]).contains('/') by {
            assert(whole.subrange(0, at.len() as int)[k] == whole[k]);
        }
    }
}

/// A named segment ends at the end of the text or before a slash.
proof fn ends_are_at_slashes(parts: Seq<Seq<char>>, k: int)
    requires
        0 <= k < named_ends(parts).len(),
    ensures
        0 < named_ends(parts)[k] <= join(parts, seq!['/']).len(),
        named_ends(parts)[k] < join(parts, seq!['/']).len() ==> join(parts, seq!['/'])[named_ends(parts)[k]] == '/',
    decreases parts.len(),
{
    if parts.len() > 1 && k < named_ends(parts.drop_last()).len() {
        ends_are_at_slashes(parts.drop_last(), k);
    } else if parts.len() == 1 {
        assert(named_ends(parts.drop_last()) =~= Seq::<int>::empty());
    }
}

/// Whatever a path resolves to, the path within the component is the end of the path itself, as it
/// was written; and it is empty, or starts with a slash.
pub proof fn resolution_keeps_the_path_verbatim(dirs: Directories, path: Seq<char>)
    requires
        resolution(dirs, path) is Some,
    ensures
        resolution(dirs, path)->0.path_in_component.is_suffix_of(seq!['/'] + path),
        resolution(dirs, path)->0.path_in_component.len() > 0 ==> resolution(dirs, path)->0.path_in_component[0]
            == '/',
{
    let segments = named(split(path, '/'));
    let n = segments.len() as int;
    named_is_clean(split(path, '/'));
    join_undoes_split(path, '/');
    first_plugin_is_in_range(dirs, segments, 0);
    deepest_component_is_in_range(dirs, segments, n);
    let consumed = match first_plugin(dirs, segments, 0) {
        Some(i) => i + 1,
        None => match deepest_component(dirs, segments, n) {
            Some(consumed) => consumed,
            None => 0,
        },
    };
    let rooted = seq!['/'] + path;
    let rest = remainder_of(path, consumed);
    if consumed > 0 {
        ends_are_at_slashes(split(path, '/'), consumed - 1);
        let end = named_ends(split(path, '/'))[consumed - 1];
        assert(rooted.subrange(rooted.len() - rest.len(), rooted.len() as int) =~= rest);
    } else {
        assert(rooted.subrange(rooted.len() - rest.len(), rooted.len() as int) =~= rest);
    }
}

proof fn first_plugin_is_in_range(dirs: Directories, segments: Seq<Seq<char>>, i: int)
    requires
        0 <= i,
    ensures
        first_plugin(dirs, segments, i) matches Some(k) ==> i <= k < segments.len() && names_plugin(dirs, segments, k),
        forall|k: int| i <= k < segments.len() && #[trigger] names_plugin(dirs, segments, k) ==> {
            first_plugin(dirs, segments, i) matches Some(first) && first <= k
        },
    decreases segments.len() - i,
{
    if i < segments.len() {
        first_plugin_is_in_range(dirs, segments, i + 1);
    }
}

pub proof fn deepest_component_is_in_range(dirs: Directories, segments: Seq<Seq<char>>, n: int)
    ensures
        deepest_component(dirs, segments, n) matches Some(k) ==> 0 <= k <= n && dirs.components.contains_key(
            segments.take(k),
        ),
        forall|k: int| 0 <= k <= n && #[trigger] dirs.components.contains_key(segments.take(k)) ==> {
            deepest_component(dirs, segments, n) matches Some(deepest) && k <= deepest
        },
    decreases n + 1,
{
    if n >= 0 {
        deepest_component_is_in_range(dirs, segments, n - 1);
    }
}

/// A path that names no plugin below a plugin type's root resolves to the most specific component
/// directory that contains it: no component directory further down it exists.
pub proof fn resolution_prefers_the_most_specific(dirs: Directories, path: Seq<char>, k: int)
    requires
        0 <= k <= named(split(path, '/')).len(),
        dirs.components.contains_key(named(split(path, '/')).take(k)),
        first_plugin(dirs, named(split(path, '/')), 0) is None,
    ensures
        exists|deepest: int| #![trigger remainder_of(path, deepest)]
            k <= deepest <= named(split(path, '/')).len()
                && resolution(dirs, path) == Some(
                    ResolutionView {
                        component: dirs.components[named(split(path, '/')).take(deepest)],
                        path_in_component: remainder_of(path, deepest),
                    },
                ),
{
    let segments = named(split(path, '/'));
    deepest_component_is_in_range(dirs, segments, segments.len() as int);
    let deepest = deepest_component(dirs, segments, segments.len() as int)->0;
    assert(remainder_of(path, deepest) == remainder_of(path, deepest));
}

/// Whether every segment of `at` is an ordinary one: not empty, without a slash, and not a dynamic
/// marker.
pub open spec fn is_ordinary(at: Location) -> bool {
    forall|i: int|
        0 <= i < at.len() ==> (#[trigger] at[i]).len() > 0 && !at[i].contains('/') && !whole_dynamic_segment(at[i])
}

/// The segments of a path made of ordinary segments are those, and each ends where the path up to it
/// does.
proof fn ordinary_segments_are_named(at: Location)
    requires
        forall|i: int| 0 <= i < at.len() ==> (#[trigger] at[i]).len() > 0,
    ensures
        named(at) == at,
        named_ends(at).len() == at.len(),
        forall|i: int| 0 <= i < at.len() ==> #[trigger] named_ends(at)[i] == join(at.take(i + 1), seq!['/']).len(),
    decreases at.len(),
{
    if at.len() > 0 {
        let rest = at.drop_last();
        ordinary_segments_are_named(rest);
        assert(at[at.len() - 1].len() > 0);
        assert(rest.push(at.last()) =~= at);
        assert forall|i: int| 0 <= i < at.len() implies #[trigger] named_ends(at)[i] == join(
            at.take(i + 1),
            seq!['/'],
        ).len() by {
            if i < rest.len() {
                assert(rest.take(i + 1) =~= at.take(i + 1));
                assert(named_ends(at)[i] == named_ends(rest)[i]);
            } else {
                assert(at.take(i + 1) =~= at);
            }
        }
    } else {
        assert(named(at) =~= at);
    }
}

/// No segment on an ordinary way to a known directory is taken for the name of a plugin.
proof fn no_plugin_on_the_way(dirs: Directories, segments: Seq<Seq<char>>, n: int, i: int)
    requires
        dirs.consistent(),
        0 <= i <= n <= segments.len(),
        is_ordinary(segments.take(n)),
        dirs.known.contains(segments.take(n)),
    ensures
        first_plugin(dirs, segments, i) == first_plugin(dirs, segments, n),
    decreases n - i,
{
    if i < n {
        assert(segments.take(n).take(i + 1) =~= segments.take(i + 1));
        assert(dirs.known.contains(segments.take(i + 1)));
        assert(segments.take(n)[i] == segments[i]);
        no_plugin_on_the_way(dirs, segments, n, i + 1);
    }
}

/// What is left of a path of ordinary segments behind the first `n` of them.
proof fn rest_of_ordinary_path(at: Location, n: int)
    requires
        is_ordinary(at),
        0 < n <= at.len(),
    ensures
        remainder_of(join(at, seq!['/']), n) == if n == at.len() {
            Seq::<char>::empty()
        } else {
            seq!['/'] + join(at.skip(n), seq!['/'])
        },
{
    assert forall|i: int| 0 <= i < at.len() implies (#[trigger] at[i]).len() > 0 && !at[i].contains('/') by {}
    rest_behind(at, n);
}

proof fn rest_behind(at: Location, n: int)
    requires
        forall|i: int| 0 <= i < at.len() ==> (#[trigger] at[i]).len() > 0 && !at[i].contains('/'),
        0 < n <= at.len(),
    ensures
        remainder_of(join(at, seq!['/']), n) == if n == at.len() {
            Seq::<char>::empty()
        } else {
            seq!['/'] + join(at.skip(n), seq!['/'])
        },
{
    let path = join(at, seq!['/']);
    assert(is_clean(at)) by {
        assert forall|i: int| 0 <= i < at.len() implies !(#[trigger] at[i]).contains('/') by {}
    }
    split_undoes_join(at, '/');
    ordinary_segments_are_named(at);
    assert(named_ends(at)[n - 1] == join(at.take(n), seq!['/']).len());
    join_in_two(at, n);
    if n == at.len() {
        assert(at.take(n) =~= at);
        assert(path.skip(path.len() as int) =~= Seq::<char>::empty());
    } else {
        let start = join(at.take(n), seq!['/']);
        let end = seq!['/'] + join(at.skip(n), seq!['/']);
        assert(path =~= start + end);
        assert((start + end).skip(start.len() as int) =~= end);
    }
}

/// A joined path is the joined paths of its two parts, with a slash between them.
proof fn join_in_two(at: Location, n: int)
    requires
        0 < n <= at.len(),
    ensures
        n < at.len() ==> join(at, seq!['/']) == join(at.take(n), seq!['/']) + seq!['/'] + join(at.skip(n), seq!['/']),
    decreases at.len(),
{
    if n < at.len() {
        let rest = at.drop_last();
        join_in_two(rest, n);
        assert(rest.take(n) =~= at.take(n));
        assert(at.skip(n).drop_last() =~= rest.skip(n));
        assert(at.skip(n).last() == at.last());
        if n == rest.len() {
            assert(rest.take(n) =~= rest);
            assert(rest.skip(n) =~= Seq::<Seq<char>>::empty());
            assert(join(at.skip(n), seq!['/']) =~= at.last());
            assert(join(at, seq!['/']) =~= join(at.take(n), seq!['/']) + seq!['/'] + join(at.skip(n), seq!['/']));
        } else {
            assert(join(at, seq!['/']) =~= join(at.take(n), seq!['/']) + seq!['/'] + join(at.skip(n), seq!['/']));
        }
    }
}

/// The directory of a component resolves to that component, and to nothing within it.
pub proof fn component_directories_resolve_to_their_component(dirs: Directories, at: Location)
    requires
        dirs.consistent(),
        dirs.components.contains_key(at),
        at.len() > 0,
        is_ordinary(at),
    ensures
        resolution(dirs, join(at, seq!['/'])) == Some(
            ResolutionView { component: dirs.components[at], path_in_component: Seq::<char>::empty() },
        ),
{
    assert forall|i: int| 0 <= i < at.len() implies !(#[trigger] at[i]).contains('/') by {}
    split_undoes_join(at, '/');
    ordinary_segments_are_named(at);
    assert(at.take(at.len() as int) =~= at);
    no_plugin_on_the_way(dirs, at, at.len() as int, 0);
    rest_of_ordinary_path(at, at.len() as int);
}

/// A name below the root directory of a plugin type, that a plugin could have and that is not known to be
/// anything else, resolves to the plugin it would be, whether or not there is one: the frankenstyle name
/// follows from the directories alone. Whatever comes behind it is the path within the plugin.
pub proof fn plausible_plugins_resolve_to_their_type(
    dirs: Directories,
    root: Location,
    name: Seq<char>,
    rest: Location,
)
    requires
        dirs.consistent(),
        dirs.plugin_types.contains_key(root),
        is_ordinary(root.push(name) + rest),
        possible_plugin_name(name),
        !reserved_non_plugin_dir(dirs.plugin_types[root], name),
        !dirs.known.contains(root.push(name)),
    ensures
        resolution(dirs, join(root.push(name) + rest, seq!['/'])) == Some(
            ResolutionView {
                component: dirs.plugin_types[root] + seq!['_'] + name,
                path_in_component: if rest.len() == 0 {
                    Seq::<char>::empty()
                } else {
                    seq!['/'] + join(rest, seq!['/'])
                },
            },
        ),
{
    let at = root.push(name) + rest;
    let n = root.len() as int;
    assert forall|i: int| 0 <= i < at.len() implies !(#[trigger] at[i]).contains('/') by {}
    split_undoes_join(at, '/');
    ordinary_segments_are_named(at);
    assert(at.take(n) =~= root);
    assert(at.take(n + 1) =~= root.push(name));
    assert(at[n] == name);
    assert(is_ordinary(at.take(n))) by {
        assert forall|i: int| 0 <= i < n implies (#[trigger] at.take(n)[i]).len() > 0 && !at.take(n)[i].contains('/')
            && !whole_dynamic_segment(at.take(n)[i]) by {
            assert(at.take(n)[i] == at[i]);
        }
    }
    no_plugin_on_the_way(dirs, at, n, 0);
    assert(names_plugin(dirs, at, n));
    rest_of_ordinary_path(at, n + 1);
    assert(at.skip(n + 1) =~= rest);
}

/// No plugin is named from segment `i` on, if none of the directories there is the root of a plugin type.
proof fn no_plugin_without_a_type(dirs: Directories, segments: Seq<Seq<char>>, i: int)
    requires
        0 <= i,
        forall|k: int| i <= k < segments.len() ==> !#[trigger] dirs.plugin_types.contains_key(segments.take(k)),
    ensures
        first_plugin(dirs, segments, i) is None,
{
    first_plugin_is_in_range(dirs, segments, i);
}

proof fn ordinary_start(at: Location, rest: Location)
    requires
        is_ordinary(at + rest),
    ensures
        is_ordinary(at),
{
    assert forall|i: int| 0 <= i < at.len() implies (#[trigger] at[i]).len() > 0 && !at[i].contains('/')
        && !whole_dynamic_segment(at[i]) by {
        assert((at + rest)[i] == at[i]);
    }
}

/// A path below the directory of a component, in no other component's directory and in no plugin type's
/// root further down, resolves to that component; what comes behind the directory is the path within it.
pub proof fn what_a_component_contains_resolves_to_it(dirs: Directories, at: Location, rest: Location)
    requires
        dirs.consistent(),
        dirs.components.contains_key(at),
        rest.len() > 0,
        is_ordinary(at + rest),
        forall|k: int|
            at.len() < k <= (at + rest).len() ==> !#[trigger] dirs.components.contains_key((at + rest).take(k)),
        forall|k: int|
            at.len() <= k < (at + rest).len() ==> !#[trigger] dirs.plugin_types.contains_key((at + rest).take(k)),
    ensures
        resolution(dirs, join(at + rest, seq!['/'])) == Some(
            ResolutionView {
                component: dirs.components[at],
                path_in_component: seq!['/'] + join(rest, seq!['/']),
            },
        ),
{
    let all = at + rest;
    let n = at.len() as int;
    assert forall|i: int| 0 <= i < all.len() implies !(#[trigger] all[i]).contains('/') by {}
    split_undoes_join(all, '/');
    ordinary_segments_are_named(all);
    assert(all.take(n) =~= at);
    ordinary_start(at, rest);
    no_plugin_on_the_way(dirs, all, n, 0);
    no_plugin_without_a_type(dirs, all, n);
    deepest_component_is_in_range(dirs, all, all.len() as int);
    assert(deepest_component(dirs, all, all.len() as int) == Some(n));
    if n > 0 {
        rest_of_ordinary_path(all, n);
        assert(all.skip(n) =~= rest);
    } else {
        assert(all =~= rest);
        nonempty_join(all);
    }
}

proof fn nonempty_join(at: Location)
    requires
        at.len() > 0,
        at.last().len() > 0,
    ensures
        join(at, seq!['/']).len() > 0,
{
}

/// A path of ordinary names that lies in no component's directory and in no plugin type's root is owned by
/// nothing: it resolves to the root pseudo-component, as a whole.
pub proof fn what_nothing_contains_resolves_to_root(dirs: Directories, at: Location)
    requires
        at.len() > 0,
        forall|i: int| 0 <= i < at.len() ==> plain_segment(#[trigger] at[i]),
        forall|k: int| 0 <= k <= at.len() ==> !#[trigger] dirs.components.contains_key(at.take(k)),
        forall|k: int| 0 <= k < at.len() ==> !#[trigger] dirs.plugin_types.contains_key(at.take(k)),
    ensures
        resolution(dirs, join(at, seq!['/'])) == Some(
            ResolutionView { component: "root"@, path_in_component: seq!['/'] + join(at, seq!['/']) },
        ),
{
    plain_segments_are_segments(at);
    split_undoes_join(at, '/');
    ordinary_segments_are_named(at);
    no_plugin_without_a_type(dirs, at, 0);
    deepest_component_is_in_range(dirs, at, at.len() as int);
    nonempty_join(at);
    let d = deepest_known(dirs, at, at.len() as int);
    deepest_known_is_in_range(dirs, at, at.len() as int);
    let unmatched = at.skip(d);
    assert forall|i: int| 0 <= i < unmatched.len() implies plain_segment(#[trigger] unmatched[i]) by {
        assert(unmatched[i] == at[d + i]);
    }
}

pub proof fn plain_segments_are_segments(at: Location)
    requires
        forall|i: int| 0 <= i < at.len() ==> plain_segment(#[trigger] at[i]),
    ensures
        forall|i: int| 0 <= i < at.len() ==> (#[trigger] at[i]).len() > 0 && !at[i].contains('/'),
{
    assert forall|i: int| 0 <= i < at.len() implies (#[trigger] at[i]).len() > 0 && !at[i].contains('/') by {
        assert(plain_segment(at[i]));
        if at[i].contains('/') {
            let j = choose|j: int| 0 <= j < at[i].len() && at[i][j] == '/';
            assert(is_plain_char(at[i][j]));
        }
    }
}

proof fn deepest_known_is_in_range(dirs: Directories, segments: Seq<Seq<char>>, n: int)
    requires
        0 <= n <= segments.len(),
    ensures
        0 <= deepest_known(dirs, segments, n) <= n,
        forall|k: int| deepest_known(dirs, segments, n) < k <= n ==> !#[trigger] dirs.known.contains(segments.take(k)),
    decreases n,
{
    if n > 0 && !dirs.known.contains(segments.take(n)) {
        deepest_known_is_in_range(dirs, segments, n - 1);
    }
}

/// Nothing is said of a path outside every component that goes up, or whose first unknown name holds
/// something else than the characters of file names.
pub proof fn what_cannot_be_told_does_not_resolve(dirs: Directories, at: Location, i: int)
    requires
        0 <= i < at.len(),
        forall|k: int| 0 <= k < at.len() ==> (#[trigger] at[k]).len() > 0 && !at[k].contains('/'),
        forall|k: int| 0 <= k <= at.len() ==> !#[trigger] dirs.components.contains_key(at.take(k)),
        forall|k: int| 0 <= k < at.len() ==> !#[trigger] dirs.plugin_types.contains_key(at.take(k)),
        forall|k: int| i < k <= at.len() ==> !#[trigger] dirs.known.contains(at.take(k)),
        at[i] == ".."@ || at[i] == "."@ || (at[i].contains('*') || at[i].contains('\\')) && !at[i].contains('{')
            || at[i].contains('{') && dirs.known.contains(at.take(i)),
    ensures
        resolution(dirs, join(at, seq!['/'])) is None,
{
    split_undoes_join(at, '/');
    ordinary_segments_are_named(at);
    no_plugin_without_a_type(dirs, at, 0);
    deepest_component_is_in_range(dirs, at, at.len() as int);
    let n = at.len() as int;
    let d = deepest_known(dirs, at, n);
    deepest_known_is_in_range(dirs, at, n);
    deepest_known_is_known(dirs, at, n);
    reveal_strlit("..");
    reveal_strlit(".");
    let unmatched = at.skip(d);
    assert(d <= i);
    assert(unmatched[i - d] == at[i]);
    assert(!plain_segment(at[i])) by {
        if at[i].contains('*') {
            let j = choose|j: int| 0 <= j < at[i].len() && at[i][j] == '*';
            assert(!is_plain_char(at[i][j]));
        } else if at[i].contains('\\') {
            let j = choose|j: int| 0 <= j < at[i].len() && at[i][j] == '\\';
            assert(!is_plain_char(at[i][j]));
        } else if at[i].contains('{') {
            let j = choose|j: int| 0 <= j < at[i].len() && at[i][j] == '{';
            assert(!is_plain_char(at[i][j]));
        }
    }
}

proof fn deepest_known_is_known(dirs: Directories, segments: Seq<Seq<char>>, n: int)
    requires
        0 <= n <= segments.len(),
    ensures
        forall|k: int| 0 <= k <= n && #[trigger] dirs.known.contains(segments.take(k)) ==> k <= deepest_known(
            dirs,
            segments,
            n,
        ),
        deepest_known(dirs, segments, n) > 0 ==> dirs.known.contains(segments.take(deepest_known(dirs, segments, n))),
    decreases n,
{
    if n > 0 && !dirs.known.contains(segments.take(n)) {
        deepest_known_is_known(dirs, segments, n - 1);
    }
}

/// A dynamic name right below the root of a plugin type stands for a plugin of that type, whichever it is.
pub proof fn dynamic_names_stand_for_plugins(dirs: Directories, root: Location, inner: Seq<char>, rest: Location)
    requires
        dirs.consistent(),
        dirs.plugin_types.contains_key(root),
        is_ordinary(root),
        !inner.contains('/'),
        forall|i: int| 0 <= i < rest.len() ==> (#[trigger] rest[i]).len() > 0 && !rest[i].contains('/'),
    ensures
        resolution(dirs, join(root.push("{"@ + inner + "}"@) + rest, seq!['/'])) == Some(
            ResolutionView {
                component: dirs.plugin_types[root] + "_{"@ + inner + "}"@,
                path_in_component: if rest.len() == 0 {
                    Seq::<char>::empty()
                } else {
                    seq!['/'] + join(rest, seq!['/'])
                },
            },
        ),
{
    reveal_strlit("{");
    reveal_strlit("}");
    reveal_strlit("_{");
    let name = "{"@ + inner + "}"@;
    let at = root.push(name) + rest;
    let n = root.len() as int;
    if name.contains('/') {
        let j = choose|j: int| 0 <= j < name.len() && name[j] == '/';
        assert(inner[j - 1] == '/');
    }
    assert forall|i: int| 0 <= i < at.len() implies (#[trigger] at[i]).len() > 0 && !at[i].contains('/') by {
        if i < n {
            assert(at[i] == root[i]);
        } else if i > n {
            assert(at[i] == rest[i - n - 1]);
        }
    }
    split_undoes_join(at, '/');
    ordinary_segments_are_named(at);
    assert(at.take(n) =~= root);
    assert(at[n] == name);
    no_plugin_on_the_way(dirs, at, n, 0);
    assert(names_plugin(dirs, at, n));
    rest_behind(at, n + 1);
    assert(at.skip(n + 1) =~= rest);
    assert(dirs.plugin_types[root] + seq!['_'] + name =~= dirs.plugin_types[root] + "_{"@ + inner + "}"@);
}

/// A component lies at the directory that it is discovered with, unless a later one has the same; and so does
/// a plugin type. Both, and all directories that contain them, are known.
pub proof fn discovered_directories_are_theirs(discovery: &ComponentDiscovery, i: int, n: int)
    requires
        discovery.components.valid(),
        0 <= i < discovery.components.spec_keys().len(),
        discovery.components.spec_values()[i]@.len() > 0,
        forall|j: int|
            i < j < discovery.components.spec_keys().len() ==> (#[trigger] discovery.components.spec_values()[j])@
                != discovery.components.spec_values()[i]@,
    ensures
        ({
            let at = split(discovery.components.spec_values()[i]@, '/');
            let dirs = directories_of(discovery);
            &&& dirs.components.contains_key(at)
            &&& dirs.components[at] == discovery.components.spec_keys()[i]
            &&& 0 <= n <= at.len() ==> dirs.known.contains(at.take(n))
        }),
{
    let paths = discovery.components.spec_values();
    let at = split(paths[i]@, '/');
    last_of_a_directory(discovery.components.spec_keys(), paths, i);
    if 0 <= n <= at.len() {
        assert(at.take(n).is_prefix_of(at)) by {
            assert(at.subrange(0, n) =~= at.take(n));
        }
        assert(is_on_the_way(paths, at.take(n)));
    }
}

/// The same, for plugin types.
pub proof fn discovered_type_directories_are_theirs(discovery: &ComponentDiscovery, i: int, n: int)
    requires
        discovery.plugin_types.valid(),
        0 <= i < discovery.plugin_types.spec_keys().len(),
        discovery.plugin_types.spec_values()[i]@.len() > 0,
        forall|j: int|
            i < j < discovery.plugin_types.spec_keys().len() ==> (#[trigger] discovery.plugin_types.spec_values()[j])@
                != discovery.plugin_types.spec_values()[i]@,
    ensures
        ({
            let at = split(discovery.plugin_types.spec_values()[i]@, '/');
            let dirs = directories_of(discovery);
            &&& dirs.plugin_types.contains_key(at)
            &&& dirs.plugin_types[at] == discovery.plugin_types.spec_keys()[i]
            &&& 0 <= n <= at.len() ==> dirs.known.contains(at.take(n))
        }),
{
    let paths = discovery.plugin_types.spec_values();
    let at = split(paths[i]@, '/');
    last_of_a_directory(discovery.plugin_types.spec_keys(), paths, i);
    if 0 <= n <= at.len() {
        assert(at.take(n).is_prefix_of(at)) by {
            assert(at.subrange(0, n) =~= at.take(n));
        }
        assert(is_on_the_way(paths, at.take(n)));
    }
}

proof fn last_of_a_directory(names: Seq<Seq<char>>, paths: Seq<String>, i: int)
    requires
        names.len() == paths.len(),
        0 <= i < names.len(),
        paths[i]@.len() > 0,
        forall|j: int| i < j < names.len() ==> (#[trigger] paths[j])@ != paths[i]@,
    ensures
        last_at(names, paths, split(paths[i]@, '/')) == Some(names[i]),
    decreases names.len(),
{
    if i < names.len() - 1 {
        let last = paths[paths.len() - 1]@;
        split_is_clean(paths[i]@);
        split_is_clean(last);
        assert(split(last, '/') != split(paths[i]@, '/'));
        last_of_a_directory(names.drop_last(), paths.drop_last(), i);
    }
}

/// Every component directory is that of a discovered component, and every plugin type's root that of a
/// discovered plugin type.
pub proof fn directories_are_discovered(discovery: &ComponentDiscovery, at: Location)
    requires
        discovery.components.valid(),
        discovery.plugin_types.valid(),
    ensures
        ({
            let dirs = directories_of(discovery);
            &&& dirs.components.contains_key(at) ==> exists|i: int|
                #![trigger discovery.components.spec_keys()[i]]
                0 <= i < discovery.components.spec_keys().len() && discovery.components.spec_keys()[i]
                    == dirs.components[at] && split(discovery.components.spec_values()[i]@, '/') == at
            &&& dirs.plugin_types.contains_key(at) ==> exists|i: int|
                #![trigger discovery.plugin_types.spec_keys()[i]]
                0 <= i < discovery.plugin_types.spec_keys().len() && discovery.plugin_types.spec_keys()[i]
                    == dirs.plugin_types[at] && split(discovery.plugin_types.spec_values()[i]@, '/') == at
        }),
{
    if directories_of(discovery).components.contains_key(at) {
        let i = place_of_last(discovery.components.spec_keys(), discovery.components.spec_values(), at);
        assert(discovery.components.spec_keys()[i] == directories_of(discovery).components[at]);
    }
    if directories_of(discovery).plugin_types.contains_key(at) {
        let i = place_of_last(discovery.plugin_types.spec_keys(), discovery.plugin_types.spec_values(), at);
        assert(discovery.plugin_types.spec_keys()[i] == directories_of(discovery).plugin_types[at]);
    }
}

proof fn place_of_last(names: Seq<Seq<char>>, paths: Seq<String>, at: Location) -> (i: int)
    requires
        names.len() == paths.len(),
        last_at(names, paths, at) is Some,
    ensures
        0 <= i < names.len(),
        last_at(names, paths, at) == Some(names[i]),
        split(paths[i]@, '/') == at,
    decreases names.len(),
{
    if paths.last()@.len() > 0 && split(paths.last()@, '/') == at {
        names.len() - 1
    } else {
        place_of_last(names.drop_last(), paths.drop_last(), at)
    }
}

/// Whether no plugin can have this name: it is empty, does not start with a lower-case letter, or holds
/// something else than those, digits and underscores, or ends in an underscore.
pub open spec fn is_no_plugin_name(name: Seq<char>) -> bool {
    ||| name.len() == 0
    ||| !('a' <= name[0] <= 'z')
    ||| name.last() == '_'
    ||| exists|i: int|
        0 <= i < name.len() && !('a' <= (#[trigger] name[i]) <= 'z' || '0' <= name[i] <= '9' || name[i] == '_')
}

/// A file right below the root of a plugin type, with a name that no plugin can have, is owned by nothing if
/// no component's directory contains it.
pub proof fn what_cannot_be_a_plugin_resolves_to_root(dirs: Directories, at: Location)
    requires
        at.len() > 0,
        forall|i: int| 0 <= i < at.len() ==> plain_segment(#[trigger] at[i]),
        forall|k: int| 0 <= k <= at.len() ==> !#[trigger] dirs.components.contains_key(at.take(k)),
        forall|k: int|
            0 <= k < at.len() && #[trigger] dirs.plugin_types.contains_key(at.take(k)) ==> is_no_plugin_name(at[k])
                || reserved_non_plugin_dir(dirs.plugin_types[at.take(k)], at[k]),
    ensures
        resolution(dirs, join(at, seq!['/'])) == Some(
            ResolutionView { component: "root"@, path_in_component: seq!['/'] + join(at, seq!['/']) },
        ),
{
    plain_segments_are_segments(at);
    split_undoes_join(at, '/');
    ordinary_segments_are_named(at);
    assert forall|k: int| 0 <= k < at.len() implies !#[trigger] names_plugin(dirs, at, k) by {
        if dirs.plugin_types.contains_key(at.take(k)) {
            assert(plain_segment(at[k]));
            assert(is_plain_char(at[k][0]));
            assert(!whole_dynamic_segment(at[k]));
            let name = at[k];
            if is_no_plugin_name(name) && possible_plugin_name(name) {
                if exists|i: int|
                    0 <= i < name.len() && !('a' <= (#[trigger] name[i]) <= 'z' || '0' <= name[i] <= '9' || name[i]
                        == '_') {
                    let i = choose|i: int|
                        0 <= i < name.len() && !('a' <= (#[trigger] name[i]) <= 'z' || '0' <= name[i] <= '9'
                            || name[i] == '_');
                    assert(is_lower(name[i]) || is_digit(name[i]) || name[i] == '_');
                }
                let last = name.len() - 1;
                assert(is_lower(name[last]) || is_digit(name[last]) || name[last] == '_');
            }
        }
    }
    first_plugin_is_in_range(dirs, at, 0);
    deepest_component_is_in_range(dirs, at, at.len() as int);
    nonempty_join(at);
    let d = deepest_known(dirs, at, at.len() as int);
    deepest_known_is_in_range(dirs, at, at.len() as int);
    let unmatched = at.skip(d);
    assert forall|i: int| 0 <= i < unmatched.len() implies plain_segment(#[trigger] unmatched[i]) by {
        assert(unmatched[i] == at[d + i]);
    }
}

/// The characters of ordinary names: letters, digits, and a few others.
pub proof fn characters_of_names(c: char)
    ensures
        plain_segment(seq!['x', c]) <==> 'a' <= c <= 'z' || 'A' <= c <= 'Z' || '0' <= c <= '9' || "._-+@~ "@.contains(c),
{
    reveal_strlit("._-+@~ ");
    reveal_strlit(".");
    reveal_strlit("..");
    let name = seq!['x', c];
    let others = "._-+@~ "@;
    assert(others =~= seq!['.', '_', '-', '+', '@', '~', ' ']);
    assert(others[0] == '.' && others[1] == '_' && others[2] == '-' && others[3] == '+');
    assert(others[4] == '@' && others[5] == '~' && others[6] == ' ');
    assert(name[0] == 'x' && name[1] == c);
    assert(".."@[0] == '.');
    assert("."@.len() == 1);
    if plain_segment(name) {
        assert(is_plain_char(name[1]));
    }
    if is_plain_char(c) {
        assert forall|i: int| 0 <= i < name.len() implies is_plain_char(#[trigger] name[i]) by {
            if i == 1 {
                assert(name[i] == c);
            }
        }
    }
}

/// Below a directory that is not known, a path may go on with names that hold something only known when the
/// code runs: it is still owned by nothing.
pub proof fn dynamic_names_below_an_unknown_directory_make_no_difference(dirs: Directories, at: Location, f: int)
    requires
        0 <= f < at.len(),
        forall|i: int| 0 <= i <= f ==> plain_segment(#[trigger] at[i]),
        forall|i: int|
            f < i < at.len() ==> (#[trigger] at[i]).len() > 0 && !at[i].contains('/') && (at[i].contains('{')
                || plain_segment(at[i])),
        forall|k: int| 0 <= k <= at.len() ==> !#[trigger] dirs.components.contains_key(at.take(k)),
        forall|k: int| 0 <= k < at.len() ==> !#[trigger] dirs.plugin_types.contains_key(at.take(k)),
        forall|k: int| f < k <= at.len() ==> !#[trigger] dirs.known.contains(at.take(k)),
    ensures
        resolution(dirs, join(at, seq!['/'])) == Some(
            ResolutionView { component: "root"@, path_in_component: seq!['/'] + join(at, seq!['/']) },
        ),
{
    let known = at.take(f + 1);
    assert forall|i: int| 0 <= i < known.len() implies plain_segment(#[trigger] known[i]) by {
        assert(known[i] == at[i]);
    }
    plain_segments_are_segments(known);
    assert forall|i: int| 0 <= i < at.len() implies (#[trigger] at[i]).len() > 0 && !at[i].contains('/') by {
        if i <= f {
            assert(known[i] == at[i]);
        }
    }
    split_undoes_join(at, '/');
    ordinary_segments_are_named(at);
    no_plugin_without_a_type(dirs, at, 0);
    let n = at.len() as int;
    deepest_component_is_in_range(dirs, at, n);
    nonempty_join(at);
    let d = deepest_known(dirs, at, n);
    deepest_known_is_in_range(dirs, at, n);
    deepest_known_is_known(dirs, at, n);
    let unmatched = at.skip(d);
    assert(d <= f);
    assert(unmatched[0] == at[d]);
    assert forall|i: int| 1 <= i < unmatched.len() implies plain_segment(#[trigger] unmatched[i])
        || unmatched[i].contains('{') by {
        assert(unmatched[i] == at[d + i]);
    }
}

/// A name right below the root of a plugin type that is dynamic only in part does not tell a plugin.
pub proof fn names_that_are_dynamic_in_part_do_not_resolve(dirs: Directories, root: Location, inner: Seq<char>, c: char)
    requires
        dirs.consistent(),
        dirs.plugin_types.contains_key(root),
        is_ordinary(root),
        !inner.contains('/'),
        c != '}',
        c != '/',
        !dirs.known.contains(root.push("{"@ + inner + "}"@ + seq![c])),
        forall|k: int| 0 <= k <= root.len() ==> !#[trigger] dirs.components.contains_key(root.take(k)),
        !dirs.components.contains_key(root.push("{"@ + inner + "}"@ + seq![c])),
    ensures
        resolution(dirs, join(root.push("{"@ + inner + "}"@ + seq![c]), seq!['/'])) is None,
{
    reveal_strlit("{");
    reveal_strlit("}");
    let name = "{"@ + inner + "}"@ + seq![c];
    let at = root.push(name);
    let n = root.len() as int;
    if name.contains('/') {
        let j = choose|j: int| 0 <= j < name.len() && name[j] == '/';
        assert(inner[j - 1] == '/');
    }
    assert forall|i: int| 0 <= i < at.len() implies (#[trigger] at[i]).len() > 0 && !at[i].contains('/') by {
        if i < n {
            assert(at[i] == root[i]);
        }
    }
    split_undoes_join(at, '/');
    ordinary_segments_are_named(at);
    assert(at.take(n) =~= root);
    assert(at.take(n + 1) =~= at);
    assert(at[n] == name);
    no_plugin_on_the_way(dirs, at, n, 0);
    assert(name[0] == '{');
    assert(name.last() == c);
    assert(!possible_plugin_name(name)) by {
        assert(!is_lower(name[0]));
    }
    assert(!names_plugin(dirs, at, n));
    first_plugin_is_in_range(dirs, at, n);
    assert forall|k: int| 0 <= k <= at.len() implies !#[trigger] dirs.components.contains_key(at.take(k)) by {
        if k <= n {
            assert(at.take(k) =~= root.take(k));
        } else {
            assert(at.take(k) =~= at);
        }
    }
    deepest_component_is_in_range(dirs, at, n + 1);
    deepest_known_is_in_range(dirs, at, n + 1);
    deepest_known_is_known(dirs, at, n + 1);
    assert(dirs.known.contains(at.take(n)));
    assert(deepest_known(dirs, at, n + 1) == n);
    assert(at.skip(n)[0] == name);
    assert(!is_plain_char(name[0]));
}

} // verus!
