//! Third-party library locations declared by 'thirdpartylibs.xml' files, so they can be excluded
//! from analysis. This is the same convention Moodle's own coding-standard tooling uses to skip
//! vendored code that isn't subject to Moodle's own coding guidelines.

use vstd::prelude::*;

use crate::collections::StringMap;
use crate::collections::StringSet;
use crate::collections::contains_push;
use crate::moodle::components::ComponentDiscovery;
use crate::text::concat;
use crate::text::concat3;
use crate::text::copy;
use crate::text::same;
use crate::text::starts_with;
use crate::text::texts;
use crate::text::trim;
use crate::text::trimmed;

verus! {

/// A node of an XML document: the name of its tag (empty if it is no element), and its text if it
/// has any.
#[derive(Debug)]
pub struct XmlNode {
    pub name: String,
    pub text: Option<String>,
}

/// A node of an XML document, as plain values.
pub struct XmlView {
    pub name: Seq<char>,
    pub text: Option<Seq<char>>,
}

impl View for XmlNode {
    type V = XmlView;

    open spec fn view(&self) -> XmlView {
        XmlView { name: self.name@, text: crate::path_finder::text_of(self.text) }
    }
}

/// Some nodes, as plain values.
pub open spec fn xml_views(nodes: Seq<XmlNode>) -> Seq<XmlView> {
    Seq::new(nodes.len(), |i: int| nodes[i]@)
}

/// All nodes of an XML document in document order, as `roxmltree` parses it; nothing if it is not
/// well-formed.
pub uninterp spec fn xml_nodes(content: Seq<char>) -> Option<Seq<XmlView>>;

/// Calls `roxmltree::Document::parse` and lists the `descendants` of the document, each with the
/// local name of its tag (`Node::tag_name`) and its text (`Node::text`). The claim is that the list
/// depends on the content alone.
#[verifier::external_body]
fn parse_xml(content: &str) -> (nodes: Option<Vec<XmlNode>>)
    ensures
        match nodes {
            Some(nodes) => xml_nodes(content@) == Some(xml_views(nodes@)),
            None => xml_nodes(content@) is None,
        },
{
    let document = roxmltree::Document::parse(content).ok()?;
    Some(
        document.descendants().map(
            |node| XmlNode { name: node.tag_name().name().to_string(), text: node.text().map(str::to_string) },
        ).collect(),
    )
}

/// The locations that the nodes of a manifest declare: the text of each 'location' element, without
/// the white space around it, unless it is empty; relative to the directory of the manifest.
pub open spec fn declared(component_dir: Seq<char>, nodes: Seq<XmlView>) -> Seq<Seq<char>>
    decreases nodes.len(),
{
    if nodes.len() == 0 {
        Seq::<Seq<char>>::empty()
    } else {
        let before = declared(component_dir, nodes.drop_last());
        let node = nodes.last();
        if node.name == "location"@ && node.text is Some && trimmed(node.text->0).len() > 0 {
            before.push(component_dir + "/"@ + trimmed(node.text->0))
        } else {
            before
        }
    }
}

/// The locations that the manifest of a directory declares.
pub open spec fn manifest_locations(component_dir: Seq<char>, content: Seq<char>) -> Seq<Seq<char>> {
    match xml_nodes(content) {
        Some(nodes) => declared(component_dir, nodes),
        None => Seq::<Seq<char>>::empty(),
    }
}

/// The locations that the nodes of a manifest declare, relative to the repository root.
pub fn declared_locations(component_dir: &str, nodes: &Vec<XmlNode>) -> (r: Vec<String>)
    ensures
        texts(r@) == declared(component_dir@, xml_views(nodes@)),
{
    let ghost all = xml_views(nodes@);
    let mut r: Vec<String> = Vec::new();
    let mut i: usize = 0;
    assert(texts(r@) =~= declared(component_dir@, all.take(0)));
    while i < nodes.len()
        invariant
            i <= nodes.len(),
            all == xml_views(nodes@),
            texts(r@) == declared(component_dir@, all.take(i as int)),
        decreases nodes.len() - i,
    {
        let node = &nodes[i];
        assert(all.take(i + 1).drop_last() =~= all.take(i as int));
        assert(all.take(i + 1).last() == node@);
        if same(&node.name, "location") {
            if let Some(text) = &node.text {
                let location = trim(text);
                if !location.as_str().is_empty() {
                    let ghost before = texts(r@);
                    let path = concat3(component_dir, "/", &location);
                    r.push(path);
                    assert(texts(r@) =~= before.push(path@));
                }
            }
        }
        i += 1;
    }
    assert(all.take(i as int) =~= all);
    r
}

/// The locations that the manifest of a directory declares, relative to the repository root; `None`
/// if it is not well-formed.
pub fn read_locations(component_dir: &str, content: &str) -> (r: Option<Vec<String>>)
    ensures
        r is Some == xml_nodes(content@) is Some,
        r matches Some(locations) ==> texts(locations@) == manifest_locations(component_dir@, content@),
{
    match parse_xml(content) {
        Some(nodes) => Some(declared_locations(component_dir, &nodes)),
        None => None,
    }
}

/// Whether a directory can have a 'thirdpartylibs.xml': that of a component, or the repository
/// root's own 'lib' directory, which sits above dirroot and so is not itself a component, but may
/// bundle its own third-party libraries.
pub open spec fn can_have_manifest(discovery: &ComponentDiscovery, dir: Seq<char>) -> bool {
    dir == "lib"@ || dir.len() > 0 && texts(discovery.components.spec_values()).contains(dir)
}

/// The directories that can have a 'thirdpartylibs.xml'.
pub fn manifest_dirs(discovery: &ComponentDiscovery) -> (dirs: StringSet)
    ensures
        forall|dir: Seq<char>| #[trigger] dirs@.contains(dir) == can_have_manifest(discovery, dir),
{
    let mut dirs = StringSet::new();
    dirs.insert(copy("lib"));
    let n = discovery.components.len();
    let ghost all = texts(discovery.components.spec_values());
    let mut i: usize = 0;
    while i < n
        invariant
            i <= n,
            n == all.len(),
            all == texts(discovery.components.spec_values()),
            discovery.components.valid(),
            forall|dir: Seq<char>| #[trigger]
                dirs@.contains(dir) == (dir == "lib"@ || dir.len() > 0 && all.take(i as int).contains(dir)),
        decreases n - i,
    {
        let dir = discovery.components.value_at(i);
        let ghost had = dirs@;
        let ghost d = dir@;
        if !dir.as_str().is_empty() {
            dirs.insert(copy(dir));
        }
        assert forall|x: Seq<char>| #[trigger] dirs@.contains(x) == (x == "lib"@ || x.len() > 0 && all.take(
            i + 1,
        ).contains(x)) by {
            assert(had.contains(x) == (x == "lib"@ || x.len() > 0 && all.take(i as int).contains(x)));
            assert(all[i as int] == d);
            assert(all.take(i + 1) =~= all.take(i as int).push(d));
            contains_push(all.take(i as int), d, x);
        }
        i += 1;
    }
    assert(all.take(n as int) =~= all);
    dirs
}

/// Whether `location` is declared by the manifest of one of the first `n` of `dirs`.
pub open spec fn is_declared(
    dirs: Seq<Seq<char>>,
    manifests: Map<Seq<char>, String>,
    n: int,
    location: Seq<char>,
) -> bool {
    exists|i: int|
        0 <= i < n && manifests.contains_key(#[trigger] dirs[i]) && manifest_locations(
            dirs[i],
            manifests[dirs[i]]@,
        ).contains(location)
}

/// The declared library locations of a codebase, relative to its root (e.g.
/// 'public/lib/phpspreadsheet/phpspreadsheet'), given the contents of the 'thirdpartylibs.xml' of
/// each directory that has one. A manifest can only ever appear at one of the known directories,
/// and one that is not well-formed declares nothing.
pub fn find_thirdparty_locations(
    discovery: &ComponentDiscovery,
    manifests: &StringMap<String>,
) -> (locations: StringSet)
    ensures
        forall|location: Seq<char>| #[trigger]
            locations@.contains(location) == exists|dir: Seq<char>| #[trigger]
                can_have_manifest(discovery, dir) && manifests@.contains_key(dir) && manifest_locations(
                    dir,
                    manifests@[dir]@,
                ).contains(location),
{
    let dirs = manifest_dirs(discovery);
    let n = dirs.len();
    let ghost all = dirs.spec_members();
    let mut locations = StringSet::new();
    let mut i: usize = 0;
    while i < n
        invariant
            i <= n,
            n == all.len(),
            all == dirs.spec_members(),
            forall|location: Seq<char>| #[trigger]
                locations@.contains(location) == is_declared(all, manifests@, i as int, location),
        decreases n - i,
    {
        let dir = dirs.at(i);
        let ghost had = locations@;
        let ghost mut own = Seq::<Seq<char>>::empty();
        if let Some(content) = manifests.get(dir) {
            if let Some(found) = read_locations(dir, content) {
                proof {
                    own = texts(found@);
                }
                insert_all(&mut locations, &found);
            } else {
                assert(manifest_locations(dir@, content@) =~= own);
            }
        }
        proof {
            assert forall|location: Seq<char>| #[trigger]
                locations@.contains(location) == is_declared(all, manifests@, i + 1, location) by {
                assert(had.contains(location) == is_declared(all, manifests@, i as int, location));
                assert(locations@.contains(location) == (had.contains(location) || own.contains(location)));
                if is_declared(all, manifests@, i as int, location) {
                    let k = choose|k: int|
                        0 <= k < i && manifests@.contains_key(#[trigger] all[k]) && manifest_locations(
                            all[k],
                            manifests@[all[k]]@,
                        ).contains(location);
                    assert(manifests@.contains_key(all[k]));
                }
                if own.contains(location) {
                    assert(manifests@.contains_key(all[i as int]));
                }
            }
        }
        i += 1;
    }
    proof {
        assert forall|location: Seq<char>| #[trigger]
            locations@.contains(location) == exists|dir: Seq<char>| #[trigger]
                can_have_manifest(discovery, dir) && manifests@.contains_key(dir) && manifest_locations(
                    dir,
                    manifests@[dir]@,
                ).contains(location) by {
            if is_declared(all, manifests@, n as int, location) {
                let k = choose|k: int|
                    0 <= k < n && manifests@.contains_key(#[trigger] all[k]) && manifest_locations(
                        all[k],
                        manifests@[all[k]]@,
                    ).contains(location);
                assert(all.contains(all[k]));
                assert(dirs@.contains(all[k]));
                assert(can_have_manifest(discovery, all[k]));
            }
            if exists|dir: Seq<char>| #[trigger]
                can_have_manifest(discovery, dir) && manifests@.contains_key(dir) && manifest_locations(
                    dir,
                    manifests@[dir]@,
                ).contains(location) {
                let dir = choose|dir: Seq<char>| #[trigger]
                    can_have_manifest(discovery, dir) && manifests@.contains_key(dir) && manifest_locations(
                        dir,
                        manifests@[dir]@,
                    ).contains(location);
                assert(dirs@.contains(dir));
                assert(all.contains(dir));
                let k = choose|k: int| 0 <= k < all.len() && all[k] == dir;
                assert(manifests@.contains_key(all[k]));
            }
        }
    }
    locations
}

/// Makes all of `names` members of `set`.
pub fn insert_all(set: &mut StringSet, names: &Vec<String>)
    ensures
        forall|name: Seq<char>| #[trigger]
            final(set)@.contains(name) == (old(set)@.contains(name) || texts(names@).contains(name)),
{
    let ghost had = set@;
    let ghost all = texts(names@);
    let mut i: usize = 0;
    while i < names.len()
        invariant
            i <= names.len(),
            all == texts(names@),
            forall|name: Seq<char>| #[trigger]
                set@.contains(name) == (had.contains(name) || all.take(i as int).contains(name)),
        decreases names.len() - i,
    {
        let ghost before = set@;
        let ghost n = names@[i as int]@;
        set.insert(copy(&names[i]));
        assert forall|name: Seq<char>| #[trigger] set@.contains(name) == (had.contains(name) || all.take(
            i + 1,
        ).contains(name)) by {
            assert(before.contains(name) == (had.contains(name) || all.take(i as int).contains(name)));
            assert(all[i as int] == n);
            assert(all.take(i + 1) =~= all.take(i as int).push(n));
            contains_push(all.take(i as int), n, name);
        }
        i += 1;
    }
    assert(all.take(i as int) =~= all);
}

/// Whether `path` is `location`, or lies inside it.
pub open spec fn is_at_or_inside(location: Seq<char>, path: Seq<char>) -> bool {
    path == location || (location + "/"@).is_prefix_of(path)
}

/// Whether `path` is one of `locations`, or lies inside one.
pub open spec fn thirdparty_path(locations: Set<Seq<char>>, path: Seq<char>) -> bool {
    exists|location: Seq<char>| #[trigger] locations.contains(location) && is_at_or_inside(location, path)
}

/// Whether `path` (relative to the same root as `locations`) is a declared third-party library
/// location, or lives inside one.
pub fn is_thirdparty(locations: &StringSet, path: &str) -> (r: bool)
    ensures
        r == thirdparty_path(locations@, path@),
{
    let n = locations.len();
    let ghost all = locations.spec_members();
    let mut i: usize = 0;
    while i < n
        invariant
            i <= n,
            n == all.len(),
            all == locations.spec_members(),
            locations.valid(),
            forall|k: int| 0 <= k < i ==> !is_at_or_inside(#[trigger] all[k], path@),
        decreases n - i,
    {
        let location = locations.at(i);
        if same(path, location) || starts_with(path, &concat(location, "/")) {
            assert(is_at_or_inside(location@, path@));
            return true;
        }
        i += 1;
    }
    proof {
        if thirdparty_path(locations@, path@) {
            let location = choose|location: Seq<char>| #[trigger]
                locations@.contains(location) && is_at_or_inside(location, path@);
            assert(all.contains(location));
            let k = choose|k: int| 0 <= k < all.len() && all[k] == location;
            assert(!is_at_or_inside(all[k], path@));
        }
    }
    false
}

/// Whatever lies below a third-party path is third-party too, so that whole directories can be
/// passed over.
pub proof fn below_thirdparty_is_thirdparty(locations: Set<Seq<char>>, path: Seq<char>, below: Seq<char>)
    requires
        thirdparty_path(locations, path),
        (path + "/"@).is_prefix_of(below),
    ensures
        thirdparty_path(locations, below),
{
    let location = choose|location: Seq<char>| #[trigger]
        locations.contains(location) && is_at_or_inside(location, path);
    if path != location {
        let prefix = location + "/"@;
        let long = path + "/"@;
        assert(below.subrange(0, prefix.len() as int) =~= prefix) by {
            assert forall|i: int| 0 <= i < prefix.len() implies below[i] == prefix[i] by {
                assert(below.subrange(0, long.len() as int)[i] == long[i]);
                assert(path.subrange(0, prefix.len() as int)[i] == prefix[i]);
            }
        }
    }
    assert(is_at_or_inside(location, below));
}

} // verus!
