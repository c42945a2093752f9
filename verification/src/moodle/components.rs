//! The frankenstyle components of a codebase (core, subsystems, plugins and subplugins), by the
//! rules of `\core\component` (public/lib/classes/component.php).

use vstd::prelude::*;

use crate::collections::StringMap;
use crate::collections::contains_push;
use crate::collections::in_order;
use crate::collections::listing_is_in_order;
use crate::collections::listable;
use crate::collections::listable_union;
use crate::collections::listable_with;
use crate::collections::lists;
use crate::moodle::dirroot_prefix;
use crate::moodle::spec_dirroot_prefix;
use crate::text::chars_of;
use crate::text::concat;
use crate::text::concat3;
use crate::text::contains;
use crate::text::copy;
use crate::text::has_part;
use crate::text::same;
use crate::text::starts_with;
use crate::text::texts;

verus! {

/// The components of a codebase.
#[derive(Debug)]
pub struct ComponentDiscovery {
    /// Frankenstyle component name (e.g. 'core', 'core_calendar', 'mod_forum', 'quizaccess_seb')
    /// to its location, relative to the repository root.
    pub components: StringMap<String>,
    /// Core subsystem name (e.g. 'calendar') to its location, relative to the repository root.
    /// `None` means the subsystem has no directory of its own (e.g. 'access').
    pub subsystems: StringMap<Option<String>>,
    /// Plugin type name (e.g. 'mod', or a subplugin type such as 'quizaccess') to its root
    /// directory, relative to the repository root.
    pub plugin_types: StringMap<String>,
}

/// Directory names ignored when scanning a plugin type's root directory for plugins.
pub open spec fn is_ignored_dir(name: Seq<char>) -> bool {
    ||| name == "CVS"@
    ||| name == "_vti_cnf"@
    ||| name == "amd"@
    ||| name == "classes"@
    ||| name == "db"@
    ||| name == "fonts"@
    ||| name == "lang"@
    ||| name == "pix"@
    ||| name == "simpletest"@
    ||| name == "templates"@
    ||| name == "tests"@
    ||| name == "yui"@
}

/// Whether a directory of this name below the root of `plugin_type` is never a plugin. 'auth' has
/// an exception for a plugin literally named 'db'.
pub open spec fn reserved_non_plugin_dir(plugin_type: Seq<char>, name: Seq<char>) -> bool {
    is_ignored_dir(name) && !(plugin_type == "auth"@ && name == "db"@)
}

/// A lower-case ASCII letter.
pub open spec fn is_lower(c: char) -> bool {
    'a' <= c <= 'z'
}

/// An ASCII digit.
pub open spec fn is_digit(c: char) -> bool {
    '0' <= c <= '9'
}

/// `^[a-z][a-z0-9]*$`
pub open spec fn mod_plugin_name(name: Seq<char>) -> bool {
    &&& name.len() > 0
    &&& is_lower(name[0])
    &&& forall|i: int| 0 <= i < name.len() ==> is_lower(#[trigger] name[i]) || is_digit(name[i])
}

/// Lower-case letters, digits and underscores, at least two; a letter first, no underscore last,
/// and never three underscores in a row.
pub open spec fn generic_plugin_name(name: Seq<char>) -> bool {
    &&& name.len() >= 2
    &&& is_lower(name[0])
    &&& forall|i: int|
        0 <= i < name.len() ==> is_lower(#[trigger] name[i]) || is_digit(name[i]) || name[i] == '_'
    &&& name.last() != '_'
    &&& !has_part(name, "___"@)
}

/// Whether a plugin of some type could have this name.
pub open spec fn possible_plugin_name(name: Seq<char>) -> bool {
    mod_plugin_name(name) || generic_plugin_name(name)
}

/// Whether `name` is a valid name for a plugin of type `plugin_type`, in a codebase with the core
/// subsystems `subsystems`.
pub open spec fn valid_plugin_name(
    plugin_type: Seq<char>,
    name: Seq<char>,
    subsystems: Map<Seq<char>, Option<String>>,
) -> bool {
    if plugin_type == "mod"@ {
        !(subsystems.contains_key(name) && subsystems[name] is Some) && mod_plugin_name(name)
    } else {
        !(plugin_type == "qtype"@ && name == "random"@) && generic_plugin_name(name)
    }
}

fn is_ignored(name: &str) -> (r: bool)
    ensures
        r == is_ignored_dir(name@),
{
    same(name, "CVS") || same(name, "_vti_cnf") || same(name, "amd") || same(name, "classes") || same(
        name,
        "db",
    ) || same(name, "fonts") || same(name, "lang") || same(name, "pix") || same(name, "simpletest") || same(
        name,
        "templates",
    ) || same(name, "tests") || same(name, "yui")
}

/// Whether a directory of this name below the root of `plugin_type` is never a plugin.
pub fn is_reserved_non_plugin_dir(plugin_type: &str, name: &str) -> (r: bool)
    ensures
        r == reserved_non_plugin_dir(plugin_type@, name@),
{
    is_ignored(name) && !(same(plugin_type, "auth") && same(name, "db"))
}

/// Whether a plugin of some type could have this name.
pub fn could_be_plugin_name(name: &str) -> (r: bool)
    ensures
        r == possible_plugin_name(name@),
{
    is_mod_plugin_name(name) || is_generic_plugin_name(name)
}

/// Whether `name` is a valid name for a plugin of type `plugin_type`.
pub fn is_valid_plugin_name(plugin_type: &str, name: &str, subsystems: &StringMap<Option<String>>) -> (r: bool)
    ensures
        r == valid_plugin_name(plugin_type@, name@, subsystems@),
{
    if same(plugin_type, "mod") {
        // Modules must not have the same name as a core subsystem that has its own directory.
        if let Some(Some(_)) = subsystems.get(name) {
            return false;
        }
        // Modules must not have any underscores, component normalisation would break otherwise.
        return is_mod_plugin_name(name);
    }
    // qtype_random no longer exists and must never be reused.
    !(same(plugin_type, "qtype") && same(name, "random")) && is_generic_plugin_name(name)
}

/// `^[a-z][a-z0-9]*$`
pub fn is_mod_plugin_name(name: &str) -> (r: bool)
    ensures
        r == mod_plugin_name(name@),
{
    let chars = chars_of(name);
    if chars.len() == 0 || !('a' <= chars[0] && chars[0] <= 'z') {
        return false;
    }
    let mut i: usize = 0;
    while i < chars.len()
        invariant
            i <= chars.len(),
            chars@ == name@,
            forall|j: int| 0 <= j < i ==> is_lower(#[trigger] name@[j]) || is_digit(name@[j]),
        decreases chars.len() - i,
    {
        let c = chars[i];
        if !('a' <= c && c <= 'z' || '0' <= c && c <= '9') {
            assert(!(is_lower(name@[i as int]) || is_digit(name@[i as int])));
            return false;
        }
        i += 1;
    }
    true
}

/// `^[a-z](?:[a-z0-9_](?!__))*[a-z0-9]+$`. The lookahead only rejects a run of three or more
/// consecutive underscores; equivalently, this rejects "___" anywhere and a trailing underscore.
pub fn is_generic_plugin_name(name: &str) -> (r: bool)
    ensures
        r == generic_plugin_name(name@),
{
    let chars = chars_of(name);
    if chars.len() < 2 || !('a' <= chars[0] && chars[0] <= 'z') || chars[chars.len() - 1] == '_' {
        return false;
    }
    let mut i: usize = 0;
    while i < chars.len()
        invariant
            i <= chars.len(),
            chars@ == name@,
            forall|j: int|
                0 <= j < i ==> is_lower(#[trigger] name@[j]) || is_digit(name@[j]) || name@[j] == '_',
        decreases chars.len() - i,
    {
        let c = chars[i];
        if !('a' <= c && c <= 'z' || '0' <= c && c <= '9' || c == '_') {
            assert(!(is_lower(name@[i as int]) || is_digit(name@[i as int]) || name@[i as int] == '_'));
            return false;
        }
        i += 1;
    }
    !contains(name, "___")
}

// ---------------------------------------------------------------------------------------------
// What the codebase says of its components.

/// The contents of 'lib/components.json'.
#[derive(Debug)]
pub struct ComponentsJson {
    pub plugintypes: StringMap<String>,
    pub subsystems: StringMap<Option<String>>,
    pub deprecatedplugintypes: StringMap<String>,
    pub deletedplugintypes: StringMap<String>,
}

impl ComponentsJson {
    /// What holds of the contents of every such file: see [`StringMap::valid`].
    pub open spec fn valid(&self) -> bool {
        self.plugintypes.valid() && self.deprecatedplugintypes.valid() && self.deletedplugintypes.valid()
    }
}

/// The contents of a plugin's 'db/subplugins.json'.
#[derive(Debug)]
pub struct SubpluginsJson {
    /// Subplugin types by their locations relative to the plugin's own directory.
    pub subplugintypes: StringMap<String>,
    /// Subplugin types by their locations relative to dirroot, an older form.
    pub plugintypes: StringMap<String>,
}

/// Locations by name.
pub type Locations = Map<Seq<char>, Seq<char>>;

/// The locations that a map holds.
pub open spec fn locations(map: Map<Seq<char>, String>) -> Locations {
    Map::new(|name: Seq<char>| map.contains_key(name), |name: Seq<char>| map[name]@)
}

/// What has been found in a codebase.
pub struct Found {
    /// The names of the directories that each plugin type's root directory holds.
    pub listings: Map<Seq<char>, Vec<String>>,
    /// The subplugin types that each plugin declares, by the plugin's directory.
    pub subplugins: Map<Seq<char>, SubpluginsJson>,
    /// The core subsystems.
    pub subsystems: Map<Seq<char>, Option<String>>,
}

/// The plugin types that a codebase declares with their root directories, those that are deprecated
/// or deleted included.
pub open spec fn declared_types(json: &ComponentsJson) -> Locations {
    locations(json.plugintypes@).union_prefer_right(locations(json.deprecatedplugintypes@)).union_prefer_right(
        locations(json.deletedplugintypes@),
    )
}

/// The frankenstyle name of a plugin.
pub open spec fn frankenstyle(plugin_type: Seq<char>, name: Seq<char>) -> Seq<char> {
    plugin_type + "_"@ + name
}

/// The names of the directories in `dir`; none where there is no such directory.
pub open spec fn listed_in(listings: Map<Seq<char>, Vec<String>>, dir: Seq<char>) -> Seq<Seq<char>> {
    if listings.contains_key(dir) {
        texts(listings[dir]@)
    } else {
        Seq::<Seq<char>>::empty()
    }
}

/// Whether a directory called `name` in the root directory of `plugin_type` is a plugin.
pub open spec fn is_plugin(
    plugin_type: Seq<char>,
    name: Seq<char>,
    subsystems: Map<Seq<char>, Option<String>>,
) -> bool {
    !reserved_non_plugin_dir(plugin_type, name) && valid_plugin_name(plugin_type, name, subsystems)
}

/// The plugins of `plugin_type` among the directories called `names` in its root directory, each with
/// its location.
pub open spec fn plugins_among(
    plugin_type: Seq<char>,
    type_dir: Seq<char>,
    names: Seq<Seq<char>>,
    subsystems: Map<Seq<char>, Option<String>>,
) -> Locations {
    Map::new(
        |name: Seq<char>| names.contains(name) && is_plugin(plugin_type, name, subsystems),
        |name: Seq<char>| type_dir + "/"@ + name,
    )
}

/// The plugins of `plugin_type`, each with its location.
pub open spec fn plugins_of(found: Found, plugin_type: Seq<char>, type_dir: Seq<char>) -> Locations {
    plugins_among(plugin_type, type_dir, listed_in(found.listings, type_dir), found.subsystems)
}

/// The plugin types that may declare subplugins.
pub open spec fn has_subplugins(plugin_type: Seq<char>) -> bool {
    ||| plugin_type == "mod"@
    ||| plugin_type == "editor"@
    ||| plugin_type == "tool"@
    ||| plugin_type == "local"@
}

/// The subplugin types that the plugin at `plugin_dir` declares, each with its location. The older form
/// counts only where there is nothing in the newer; its paths predate the split of dirroot from the
/// repository root, so they lack the 'public/' segment.
pub open spec fn subplugin_locations(plugin_dir: Seq<char>, json: SubpluginsJson) -> Locations {
    if json.subplugintypes.spec_keys().len() > 0 {
        Map::new(
            |name: Seq<char>| json.subplugintypes@.contains_key(name),
            |name: Seq<char>| plugin_dir + "/"@ + json.subplugintypes@[name]@,
        )
    } else {
        Map::new(
            |name: Seq<char>| json.plugintypes@.contains_key(name),
            |name: Seq<char>|
                if "public/"@.is_prefix_of(json.plugintypes@[name]@) {
                    json.plugintypes@[name]@
                } else {
                    "public/"@ + json.plugintypes@[name]@
                },
        )
    }
}

/// The subplugin types that the plugin at `plugin_dir` declares; none if it declares nothing.
pub open spec fn subplugins_at(found: Found, plugin_dir: Seq<char>) -> Locations {
    if found.subplugins.contains_key(plugin_dir) {
        subplugin_locations(plugin_dir, found.subplugins[plugin_dir])
    } else {
        Map::empty()
    }
}

/// The declaration of a subplugin type by a plugin.
pub struct Declaration {
    pub subtype: Seq<char>,
    pub dir: Seq<char>,
    pub by: Seq<char>,
}

/// The declarations of one plugin, by the names of the subplugin types.
pub open spec fn plugin_declarations(types: Locations, by: Seq<char>) -> Seq<Declaration> {
    let names = in_order(types.dom());
    Seq::new(names.len(), |i: int| Declaration { subtype: names[i], dir: types[names[i]], by })
}

/// The declarations of the plugins called `names`, in that order.
pub open spec fn type_declarations(
    found: Found,
    plugin_type: Seq<char>,
    plugins: Locations,
    names: Seq<Seq<char>>,
) -> Seq<Declaration>
    decreases names.len(),
{
    if names.len() == 0 {
        Seq::<Declaration>::empty()
    } else {
        type_declarations(found, plugin_type, plugins, names.drop_last()) + plugin_declarations(
            subplugins_at(found, plugins[names.last()]),
            frankenstyle(plugin_type, names.last()),
        )
    }
}

/// The declarations of all plugins of the types called `names`, in that order, and within a type by the
/// names of the plugins.
pub open spec fn declarations(found: Found, types: Locations, names: Seq<Seq<char>>) -> Seq<Declaration>
    decreases names.len(),
{
    if names.len() == 0 {
        Seq::<Declaration>::empty()
    } else {
        let before = declarations(found, types, names.drop_last());
        let plugins = plugins_of(found, names.last(), types[names.last()]);
        if has_subplugins(names.last()) {
            before + type_declarations(found, names.last(), plugins, in_order(plugins.dom()))
        } else {
            before
        }
    }
}

/// The subplugin types that some declarations make: the first of a name counts, and none does whose
/// name is already `known`.
pub open spec fn accepted(list: Seq<Declaration>, known: Set<Seq<char>>) -> Locations
    decreases list.len(),
{
    if list.len() == 0 {
        Map::empty()
    } else {
        let before = accepted(list.drop_last(), known);
        if known.contains(list.last().subtype) || before.contains_key(list.last().subtype) {
            before
        } else {
            before.insert(list.last().subtype, list.last().dir)
        }
    }
}

/// What is said of a declaration that does not count.
pub open spec fn duplicate_warning(declaration: Declaration) -> Seq<char> {
    "warning: ignoring duplicate subplugin type '"@ + declaration.subtype + "' declared by '"@ + declaration.by
        + "'"@
}

/// What is said of the declarations that do not count, in order.
pub open spec fn rejections(list: Seq<Declaration>, known: Set<Seq<char>>) -> Seq<Seq<char>>
    decreases list.len(),
{
    if list.len() == 0 {
        Seq::<Seq<char>>::empty()
    } else {
        let before = rejections(list.drop_last(), known);
        if known.contains(list.last().subtype) || accepted(list.drop_last(), known).contains_key(
            list.last().subtype,
        ) {
            before.push(duplicate_warning(list.last()))
        } else {
            before
        }
    }
}

/// All declarations of subplugin types in a codebase.
pub open spec fn all_declarations(json: &ComponentsJson, found: Found) -> Seq<Declaration> {
    declarations(found, declared_types(json), in_order(declared_types(json).dom()))
}

/// The names that a subplugin type cannot have.
pub open spec fn taken_names(json: &ComponentsJson) -> Set<Seq<char>> {
    declared_types(json).dom().union(json.subsystems@.dom())
}

/// The subplugin types of a codebase.
pub open spec fn subplugin_type_locations(json: &ComponentsJson, found: Found) -> Locations {
    accepted(all_declarations(json, found), taken_names(json))
}

/// The components that the plugins of one type are.
pub open spec fn plugin_components(plugin_type: Seq<char>, plugins: Locations) -> Locations {
    Map::new(
        |component: Seq<char>|
            exists|name: Seq<char>| #[trigger]
                plugins.contains_key(name) && component == frankenstyle(plugin_type, name),
        |component: Seq<char>| plugins[component.skip((plugin_type.len() + 1) as int)],
    )
}

/// `before`, and the components that the plugins of the types called `names` are; where two types make
/// a component of the same name, the later counts.
pub open spec fn with_plugins(found: Found, before: Locations, types: Locations, names: Seq<Seq<char>>) -> Locations
    decreases names.len(),
{
    if names.len() == 0 {
        before
    } else {
        let plugins = plugins_of(found, names.last(), types[names.last()]);
        with_plugins(found, before, types, names.drop_last()).union_prefer_right(
            plugin_components(names.last(), plugins),
        )
    }
}

/// The component of core, and those of its subsystems. One without a directory has an empty location.
pub open spec fn core_components(prefix: Seq<char>, subsystems: Map<Seq<char>, Option<String>>) -> Locations {
    Map::new(
        |component: Seq<char>|
            component == "core"@ || exists|name: Seq<char>| #[trigger]
                subsystems.contains_key(name) && component == frankenstyle("core"@, name),
        |component: Seq<char>|
            if component == "core"@ {
                prefix + "lib"@
            } else {
                match subsystems[component.skip(("core"@.len() + 1) as int)] {
                    Some(path) => path@,
                    None => Seq::<char>::empty(),
                }
            },
    )
}

/// All components of a codebase.
pub open spec fn all_components(json: &ComponentsJson, prefix: Seq<char>, found: Found) -> Locations {
    let types = declared_types(json);
    let subtypes = subplugin_type_locations(json, found);
    let core = core_components(prefix, json.subsystems@);
    let plugins = with_plugins(found, core, types, in_order(types.dom()));
    with_plugins(found, plugins, subtypes, in_order(subtypes.dom()))
}

/// What has been found in a codebase, given what was read from it.
pub open spec fn found_in(
    json: &ComponentsJson,
    listings: &StringMap<Vec<String>>,
    subplugins: &StringMap<SubpluginsJson>,
) -> Found {
    Found { listings: listings@, subplugins: subplugins@, subsystems: json.subsystems@ }
}

// ---------------------------------------------------------------------------------------------
// Discovery.

/// The locations of a map with one more entry.
proof fn locations_grow(map: Map<Seq<char>, String>, name: Seq<char>, location: String)
    ensures
        locations(map.insert(name, location)) == locations(map).insert(name, location@),
{
    assert(locations(map.insert(name, location)) =~= locations(map).insert(name, location@));
}

/// The part of some locations with the given names.
spec fn part(all: Locations, names: Seq<Seq<char>>) -> Locations {
    Map::new(|name: Seq<char>| names.contains(name), |name: Seq<char>| all[name])
}

proof fn parts_grow(all: Locations, names: Seq<Seq<char>>, name: Seq<char>)
    ensures
        part(all, names.push(name)) == part(all, names).insert(name, all[name]),
{
    assert forall|k: Seq<char>| #[trigger] names.push(name).contains(k) == (names.contains(k) || k == name) by {
        contains_push(names, name, k);
    }
    assert(part(all, names.push(name)) =~= part(all, names).insert(name, all[name]));
}

/// Adds all that `other` holds; it counts where both hold a name.
fn add_all(map: &mut StringMap<String>, other: &StringMap<String>)
    ensures
        locations(final(map)@) == locations(old(map)@).union_prefer_right(locations(other@)),
        final(map).valid(),
{
    let n = other.len();
    let m = map.len();
    let ghost start = locations(map@);
    let ghost all = locations(other@);
    let ghost names = other.spec_keys();
    let mut i: usize = 0;
    assert(start.union_prefer_right(part(all, names.take(0))) =~= start);
    while i < n
        invariant
            i <= n,
            n == names.len(),
            names == other.spec_keys(),
            all == locations(other@),
            map.valid(),
            locations(map@) == start.union_prefer_right(part(all, names.take(i as int))),
        decreases n - i,
    {
        let name = other.key_at(i);
        let value = copy(other.value_at(i));
        let ghost before = map@;
        proof {
            locations_grow(before, name@, value);
            assert(names.take(i + 1) =~= names.take(i as int).push(name@));
            parts_grow(all, names.take(i as int), name@);
            assert(all[name@] == value@);
        }
        map.insert(copy(name), value);
        assert(locations(map@) =~= start.union_prefer_right(part(all, names.take(i + 1))));
        i += 1;
    }
    assert(names.take(i as int) =~= names);
    assert(part(all, names) =~= all);
}

/// The plugin types that a codebase declares with their root directories, those that are deprecated or
/// deleted included.
pub fn declared_plugin_types(json: &ComponentsJson) -> (types: StringMap<String>)
    ensures
        locations(types@) == declared_types(json),
        types.valid(),
{
    let mut types: StringMap<String> = StringMap::new();
    add_all(&mut types, &json.plugintypes);
    assert(locations(types@) =~= locations(json.plugintypes@));
    add_all(&mut types, &json.deprecatedplugintypes);
    add_all(&mut types, &json.deletedplugintypes);
    types
}

/// Lists the plugins of `plugintype` among the directories called `names` in its root directory
/// `type_dir`, as a map of plugin name to its location.
pub fn scan_plugin_type(
    plugintype: &str,
    type_dir: &str,
    names: &[String],
    subsystems: &StringMap<Option<String>>,
) -> (plugins: StringMap<String>)
    ensures
        locations(plugins@) == plugins_among(plugintype@, type_dir@, texts(names@), subsystems@),
        plugins.valid(),
{
    let ghost all = texts(names@);
    let mut plugins: StringMap<String> = StringMap::new();
    let mut i: usize = 0;
    assert(locations(plugins@) =~= plugins_among(plugintype@, type_dir@, all.take(0), subsystems@));
    while i < names.len()
        invariant
            i <= names.len(),
            all == texts(names@),
            plugins.valid(),
            locations(plugins@) == plugins_among(plugintype@, type_dir@, all.take(i as int), subsystems@),
        decreases names.len() - i,
    {
        let name = &names[i];
        let ghost before = plugins@;
        proof {
            assert(all.take(i + 1) =~= all.take(i as int).push(name@));
            assert forall|k: Seq<char>| #[trigger]
                all.take(i + 1).contains(k) == (all.take(i as int).contains(k) || k == name@) by {
                contains_push(all.take(i as int), name@, k);
            }
        }
        if !is_reserved_non_plugin_dir(plugintype, name) && is_valid_plugin_name(plugintype, name, subsystems) {
            let dir = concat3(type_dir, "/", name);
            proof {
                locations_grow(before, name@, dir);
            }
            plugins.insert(copy(name), dir);
        }
        assert(locations(plugins@) =~= plugins_among(plugintype@, type_dir@, all.take(i + 1), subsystems@));
        i += 1;
    }
    assert(all.take(i as int) =~= all);
    plugins
}

/// Whether plugins of this type may declare their own subplugins in a 'db/subplugins.json' file.
pub fn supports_subplugins(plugintype: &str) -> (r: bool)
    ensures
        r == has_subplugins(plugintype@),
{
    same(plugintype, "mod") || same(plugintype, "editor") || same(plugintype, "tool") || same(plugintype, "local")
}

/// The subplugin types declared by the plugin at `plugin_dir`, as a map of subtype name to its
/// location.
pub fn read_subplugin_types(plugin_dir: &str, json: &SubpluginsJson) -> (types: StringMap<String>)
    ensures
        locations(types@) == subplugin_locations(plugin_dir@, *json),
        types.valid(),
{
    let ghost goal = subplugin_locations(plugin_dir@, *json);
    let mut types: StringMap<String> = StringMap::new();
    let relative = json.subplugintypes.len() > 0;
    let declared = if relative {
        &json.subplugintypes
    } else {
        &json.plugintypes
    };
    let n = declared.len();
    let ghost names = declared.spec_keys();
    let mut i: usize = 0;
    assert(locations(types@) =~= part(goal, names.take(0)));
    while i < n
        invariant
            i <= n,
            n == names.len(),
            names == declared.spec_keys(),
            goal == subplugin_locations(plugin_dir@, *json),
            relative == (json.subplugintypes.spec_keys().len() > 0),
            *declared == if relative {
                json.subplugintypes
            } else {
                json.plugintypes
            },
            types.valid(),
            locations(types@) == part(goal, names.take(i as int)),
        decreases n - i,
    {
        let name = declared.key_at(i);
        let path = declared.value_at(i);
        let dir = if relative {
            concat3(plugin_dir, "/", path)
        } else if starts_with(path, "public/") {
            copy(path)
        } else {
            concat("public/", path)
        };
        proof {
            locations_grow(types@, name@, dir);
            assert(names.take(i + 1) =~= names.take(i as int).push(name@));
            parts_grow(goal, names.take(i as int), name@);
            assert(goal[name@] == dir@);
        }
        types.insert(copy(name), dir);
        i += 1;
    }
    assert(names.take(i as int) =~= names);
    assert(part(goal, names) =~= goal);
    types
}

/// The names of the locations that a map holds are its keys, in order.
proof fn location_names(map: &StringMap<String>)
    requires
        map.valid(),
    ensures
        in_order(locations(map@).dom()) == map.spec_keys(),
{
    map.keys_are_in_order();
    assert(locations(map@).dom() =~= map@.dom());
}

/// The plugins of a type, given what each directory holds.
fn plugins_at(
    plugintype: &str,
    type_dir: &str,
    listings: &StringMap<Vec<String>>,
    subsystems: &StringMap<Option<String>>,
) -> (plugins: StringMap<String>)
    ensures
        locations(plugins@) == plugins_among(
            plugintype@,
            type_dir@,
            listed_in(listings@, type_dir@),
            subsystems@,
        ),
        plugins.valid(),
{
    match listings.get(type_dir) {
        Some(names) => scan_plugin_type(plugintype, type_dir, names, subsystems),
        None => {
            let names: Vec<String> = Vec::new();
            assert(texts(names@) =~= Seq::<Seq<char>>::empty());
            scan_plugin_type(plugintype, type_dir, &names, subsystems)
        },
    }
}

/// The subplugin types of a codebase.
#[derive(Debug)]
pub struct SubpluginTypes {
    /// Each subplugin type's root directory.
    pub types: StringMap<String>,
    /// What is said of the declarations that do not count.
    pub warnings: Vec<String>,
}

impl SubpluginTypes {
    /// Whether this is what some declarations make.
    pub open spec fn of(&self, list: Seq<Declaration>, known: Set<Seq<char>>) -> bool {
        &&& locations(self.types@) == accepted(list, known)
        &&& texts(self.warnings@) == rejections(list, known)
        &&& self.types.valid()
    }
}

/// Adds the declarations of one plugin.
fn add_declarations(
    found: &mut SubpluginTypes,
    declared: &StringMap<String>,
    by: &str,
    types: &StringMap<String>,
    subsystems: &StringMap<Option<String>>,
    Ghost(list): Ghost<Seq<Declaration>>,
)
    requires
        old(found).of(list, types@.dom().union(subsystems@.dom())),
    ensures
        final(found).of(
            list + plugin_declarations(locations(declared@), by@),
            types@.dom().union(subsystems@.dom()),
        ),
{
    let ghost known = types@.dom().union(subsystems@.dom());
    let n = declared.len();
    proof {
        location_names(declared);
    }
    let ghost names = declared.spec_keys();
    let ghost own = plugin_declarations(locations(declared@), by@);
    let mut i: usize = 0;
    assert(list + own.take(0) =~= list);
    while i < n
        invariant
            i <= n,
            n == names.len(),
            own.len() == n,
            names == declared.spec_keys(),
            names == in_order(locations(declared@).dom()),
            own == plugin_declarations(locations(declared@), by@),
            known == types@.dom().union(subsystems@.dom()),
            found.of(list + own.take(i as int), known),
        decreases n - i,
    {
        let subtype = declared.key_at(i);
        let dir = declared.value_at(i);
        let ghost so_far = list + own.take(i as int);
        let ghost next = list + own.take(i + 1);
        proof {
            assert(next.drop_last() =~= so_far);
            assert(next.last() == own[i as int]);
            assert(own[i as int].subtype == subtype@ && own[i as int].dir == dir@ && own[i as int].by == by@);
        }
        if types.contains_key(subtype) || subsystems.contains_key(subtype) || found.types.contains_key(subtype) {
            let start = concat3("warning: ignoring duplicate subplugin type '", subtype, "' declared by '");
            let warning = concat3(&start, by, "'");
            let ghost before = texts(found.warnings@);
            let ghost text = warning@;
            found.warnings.push(warning);
            assert(texts(found.warnings@) =~= before.push(text));
        } else {
            let dir = copy(dir);
            proof {
                locations_grow(found.types@, subtype@, dir);
            }
            found.types.insert(copy(subtype), dir);
        }
        assert(found.of(next, known));
        i += 1;
    }
    assert(own.take(i as int) =~= own);
}

/// A plugin that declares nothing makes no declarations.
proof fn nothing_is_declared(by: Seq<char>)
    ensures
        plugin_declarations(Map::empty(), by) == Seq::<Declaration>::empty(),
{
    listing_is_in_order(Seq::empty(), Map::<Seq<char>, Seq<char>>::empty().dom());
    assert(plugin_declarations(Map::empty(), by) =~= Seq::<Declaration>::empty());
}

/// The subplugin types of a codebase: those that its plugins declare, given the names of the
/// directories in each plugin type's root directory and what each plugin declares, by its directory.
///
/// Only some plugin types may declare subplugins. A declaration whose name is that of a plugin type, a
/// core subsystem or a subplugin type declared before it is ignored, with a warning.
pub fn subplugin_types(
    json: &ComponentsJson,
    listings: &StringMap<Vec<String>>,
    subplugins: &StringMap<SubpluginsJson>,
) -> (r: SubpluginTypes)
    ensures
        r.of(all_declarations(json, found_in(json, listings, subplugins)), taken_names(json)),
{
    let ghost found = found_in(json, listings, subplugins);
    let types = declared_plugin_types(json);
    let ghost all = declared_types(json);
    let ghost known = taken_names(json);
    let ghost names = types.spec_keys();
    proof {
        location_names(&types);
        assert(all.dom() =~= types@.dom());
        assert(types@.dom().union(json.subsystems@.dom()) == known);
    }
    let mut r = SubpluginTypes { types: StringMap::new(), warnings: Vec::new() };
    assert(locations(r.types@) =~= Map::<Seq<char>, Seq<char>>::empty());
    assert(texts(r.warnings@) =~= Seq::<Seq<char>>::empty());
    let n = types.len();
    let mut i: usize = 0;
    while i < n
        invariant
            i <= n,
            n == names.len(),
            names == types.spec_keys(),
            all == locations(types@),
            found == found_in(json, listings, subplugins),
            types.valid(),
            types@.dom().union(json.subsystems@.dom()) == known,
            r.of(declarations(found, all, names.take(i as int)), known),
        decreases n - i,
    {
        let plugintype = types.key_at(i);
        let type_dir = types.value_at(i);
        let ghost before = declarations(found, all, names.take(i as int));
        assert(names.take(i + 1).drop_last() =~= names.take(i as int));
        assert(all[plugintype@] == type_dir@);
        if supports_subplugins(plugintype) {
            let plugins = plugins_at(plugintype, type_dir, listings, &json.subsystems);
            let ghost dirs = locations(plugins@);
            let ghost plugin_names = plugins.spec_keys();
            proof {
                location_names(&plugins);
            }
            let m = plugins.len();
            let mut k: usize = 0;
            assert(before + type_declarations(found, plugintype@, dirs, plugin_names.take(0)) =~= before);
            while k < m
                invariant
                    k <= m,
                    m == plugin_names.len(),
                    plugin_names == plugins.spec_keys(),
                    plugins.valid(),
                    dirs == locations(plugins@),
                    found == found_in(json, listings, subplugins),
                    types@.dom().union(json.subsystems@.dom()) == known,
                    r.of(before + type_declarations(found, plugintype@, dirs, plugin_names.take(k as int)), known),
                decreases m - k,
            {
                let name = plugins.key_at(k);
                let plugin_dir = plugins.value_at(k);
                let ghost so_far = type_declarations(found, plugintype@, dirs, plugin_names.take(k as int));
                let ghost own = plugin_declarations(
                    subplugins_at(found, plugin_dir@),
                    frankenstyle(plugintype@, name@),
                );
                proof {
                    assert(plugin_names.take(k + 1).drop_last() =~= plugin_names.take(k as int));
                    assert(plugin_names.take(k + 1).last() == name@);
                    assert(dirs[name@] == plugin_dir@);
                    assert((before + so_far) + own =~= before + (so_far + own));
                }
                if let Some(declared) = subplugins.get(plugin_dir) {
                    let declared_here = read_subplugin_types(plugin_dir, declared);
                    let by = concat3(plugintype, "_", name);
                    add_declarations(&mut r, &declared_here, &by, &types, &json.subsystems, Ghost(before + so_far));
                } else {
                    proof {
                        nothing_is_declared(frankenstyle(plugintype@, name@));
                        assert((before + so_far) + own =~= before + so_far);
                    }
                }
                k += 1;
            }
            assert(plugin_names.take(k as int) =~= plugin_names);
        }
        i += 1;
    }
    assert(names.take(i as int) =~= names);
    r
}

/// A plugin's name can be told from its frankenstyle name, given its type.
proof fn frankenstyle_ends_in_the_name(plugin_type: Seq<char>, name: Seq<char>)
    ensures
        frankenstyle(plugin_type, name).skip((plugin_type.len() + 1) as int) == name,
{
    reveal_strlit("_");
    assert(frankenstyle(plugin_type, name).skip((plugin_type.len() + 1) as int) =~= name);
}

/// One more plugin is one more component.
proof fn plugin_components_grow(plugin_type: Seq<char>, plugins: Locations, name: Seq<char>, dir: Seq<char>)
    ensures
        plugin_components(plugin_type, plugins.insert(name, dir)) == plugin_components(plugin_type, plugins).insert(
            frankenstyle(plugin_type, name),
            dir,
        ),
{
    let before = plugin_components(plugin_type, plugins);
    let after = plugin_components(plugin_type, plugins.insert(name, dir));
    let component = frankenstyle(plugin_type, name);
    frankenstyle_ends_in_the_name(plugin_type, name);
    assert forall|c: Seq<char>| #[trigger] after.contains_key(c) == before.insert(component, dir).contains_key(c) by {
        if after.contains_key(c) {
            let n = choose|n: Seq<char>| #[trigger]
                plugins.insert(name, dir).contains_key(n) && c == frankenstyle(plugin_type, n);
            if n != name {
                assert(plugins.contains_key(n));
            }
        }
        if before.contains_key(c) {
            let n = choose|n: Seq<char>| #[trigger]
                plugins.contains_key(n) && c == frankenstyle(plugin_type, n);
            assert(plugins.insert(name, dir).contains_key(n));
        }
        if c == component {
            assert(plugins.insert(name, dir).contains_key(name));
        }
    }
    assert forall|c: Seq<char>| #[trigger] after.contains_key(c) implies after[c] == before.insert(component, dir)[c] by {
        let n = choose|n: Seq<char>| #[trigger]
            plugins.insert(name, dir).contains_key(n) && c == frankenstyle(plugin_type, n);
        frankenstyle_ends_in_the_name(plugin_type, n);
    }
    assert(after =~= before.insert(component, dir));
}

/// Adds the components that the plugins of one type are.
fn add_plugins(components: &mut StringMap<String>, plugintype: &str, plugins: &StringMap<String>)
    ensures
        locations(final(components)@) == locations(old(components)@).union_prefer_right(
            plugin_components(plugintype@, locations(plugins@)),
        ),
        final(components).valid(),
{
    let n = plugins.len();
    let m = components.len();
    let ghost start = locations(components@);
    let ghost all = locations(plugins@);
    let ghost names = plugins.spec_keys();
    let mut i: usize = 0;
    proof {
        assert(part(all, names.take(0)) =~= Map::empty());
        assert(plugin_components(plugintype@, part(all, names.take(0))) =~= Map::empty());
        assert(start.union_prefer_right(Map::empty()) =~= start);
    }
    while i < n
        invariant
            i <= n,
            n == names.len(),
            names == plugins.spec_keys(),
            all == locations(plugins@),
            components.valid(),
            locations(components@) == start.union_prefer_right(
                plugin_components(plugintype@, part(all, names.take(i as int))),
            ),
        decreases n - i,
    {
        let name = plugins.key_at(i);
        let dir = copy(plugins.value_at(i));
        let component = concat3(plugintype, "_", name);
        let ghost c = component@;
        let ghost d = dir@;
        proof {
            locations_grow(components@, component@, dir);
            assert(names.take(i + 1) =~= names.take(i as int).push(name@));
            parts_grow(all, names.take(i as int), name@);
            plugin_components_grow(plugintype@, part(all, names.take(i as int)), name@, d);
        }
        let ghost before = plugin_components(plugintype@, part(all, names.take(i as int)));
        components.insert(component, dir);
        assert(locations(components@) =~= start.union_prefer_right(before.insert(c, d)));
        i += 1;
    }
    assert(names.take(i as int) =~= names);
    assert(part(all, names) =~= all);
}

/// Adds the components that the plugins of several types are.
fn add_types(
    components: &mut StringMap<String>,
    types: &StringMap<String>,
    listings: &StringMap<Vec<String>>,
    subsystems: &StringMap<Option<String>>,
    Ghost(found): Ghost<Found>,
)
    requires
        found.listings == listings@,
        found.subsystems == subsystems@,
    ensures
        locations(final(components)@) == with_plugins(
            found,
            locations(old(components)@),
            locations(types@),
            in_order(locations(types@).dom()),
        ),
        final(components).valid(),
{
    let n = types.len();
    let m = components.len();
    let ghost start = locations(components@);
    let ghost all = locations(types@);
    let ghost names = types.spec_keys();
    proof {
        location_names(types);
    }
    let mut i: usize = 0;
    while i < n
        invariant
            i <= n,
            n == names.len(),
            names == types.spec_keys(),
            all == locations(types@),
            types.valid(),
            found.listings == listings@,
            found.subsystems == subsystems@,
            components.valid(),
            locations(components@) == with_plugins(found, start, all, names.take(i as int)),
        decreases n - i,
    {
        let plugintype = types.key_at(i);
        let type_dir = types.value_at(i);
        assert(names.take(i + 1).drop_last() =~= names.take(i as int));
        assert(all[plugintype@] == type_dir@);
        let plugins = plugins_at(plugintype, type_dir, listings, subsystems);
        add_plugins(components, plugintype, &plugins);
        i += 1;
    }
    assert(names.take(i as int) =~= names);
}

/// The part of some subsystems with the given names.
spec fn subsystem_part(all: Map<Seq<char>, Option<String>>, names: Seq<Seq<char>>) -> Map<Seq<char>, Option<String>> {
    Map::new(|name: Seq<char>| names.contains(name), |name: Seq<char>| all[name])
}

/// The location of a subsystem; empty if it has no directory.
spec fn subsystem_location(path: Option<String>) -> Seq<char> {
    match path {
        Some(path) => path@,
        None => Seq::<char>::empty(),
    }
}

/// One more subsystem is one more component.
proof fn core_components_grow(
    prefix: Seq<char>,
    all: Map<Seq<char>, Option<String>>,
    names: Seq<Seq<char>>,
    name: Seq<char>,
)
    ensures
        core_components(prefix, subsystem_part(all, names.push(name))) == core_components(
            prefix,
            subsystem_part(all, names),
        ).insert(frankenstyle("core"@, name), subsystem_location(all[name])),
{
    let some = subsystem_part(all, names);
    let more = subsystem_part(all, names.push(name));
    let before = core_components(prefix, some);
    let after = core_components(prefix, more);
    let component = frankenstyle("core"@, name);
    let location = subsystem_location(all[name]);
    reveal_strlit("core");
    reveal_strlit("_");
    assert forall|k: Seq<char>| #[trigger] more.contains_key(k) == (some.contains_key(k) || k == name) by {
        contains_push(names, name, k);
    }
    frankenstyle_ends_in_the_name("core"@, name);
    assert(component.len() > "core"@.len());
    assert forall|c: Seq<char>| #[trigger] after.contains_key(c) == before.insert(component, location).contains_key(c) by {
        if after.contains_key(c) && c != "core"@ {
            let n = choose|n: Seq<char>| #[trigger] more.contains_key(n) && c == frankenstyle("core"@, n);
            if n != name {
                assert(some.contains_key(n));
            }
        }
        if before.contains_key(c) && c != "core"@ {
            let n = choose|n: Seq<char>| #[trigger] some.contains_key(n) && c == frankenstyle("core"@, n);
            assert(more.contains_key(n));
        }
        if c == component {
            assert(more.contains_key(name));
        }
    }
    assert forall|c: Seq<char>| #[trigger] after.contains_key(c) implies after[c] == before.insert(
        component,
        location,
    )[c] by {
        if c != "core"@ {
            let n = choose|n: Seq<char>| #[trigger] more.contains_key(n) && c == frankenstyle("core"@, n);
            frankenstyle_ends_in_the_name("core"@, n);
            if n != name {
                assert(some.contains_key(n));
                assert(before.contains_key(c));
            }
        }
    }
    assert(after =~= before.insert(component, location));
}

/// The component of core, and those of its subsystems.
fn core_and_subsystems(prefix: &str, subsystems: &StringMap<Option<String>>) -> (components: StringMap<String>)
    ensures
        locations(components@) == core_components(prefix@, subsystems@),
        components.valid(),
{
    let ghost all = subsystems@;
    let mut components: StringMap<String> = StringMap::new();
    let lib = concat(prefix, "lib");
    proof {
        locations_grow(components@, "core"@, lib);
    }
    components.insert(copy("core"), lib);
    let n = subsystems.len();
    let ghost names = subsystems.spec_keys();
    let mut i: usize = 0;
    proof {
        let none = subsystem_part(all, names.take(0));
        assert forall|name: Seq<char>| !#[trigger] none.contains_key(name) by {}
        assert(locations(components@) =~= core_components(prefix@, none));
    }
    while i < n
        invariant
            i <= n,
            n == names.len(),
            names == subsystems.spec_keys(),
            all == subsystems@,
            components.valid(),
            locations(components@) == core_components(prefix@, subsystem_part(all, names.take(i as int))),
        decreases n - i,
    {
        let name = subsystems.key_at(i);
        let location = match subsystems.value_at(i) {
            Some(path) => copy(path),
            None => String::new(),
        };
        assert(location@ =~= subsystem_location(all[name@]));
        let component = concat3("core", "_", name);
        proof {
            locations_grow(components@, component@, location);
            assert(names.take(i + 1) =~= names.take(i as int).push(name@));
            core_components_grow(prefix@, all, names.take(i as int), name@);
        }
        components.insert(component, location);
        i += 1;
    }
    assert(names.take(i as int) =~= names);
    assert(subsystem_part(all, names) =~= all);
    components
}

/// Discovers all components of a codebase, given the contents of its 'lib/components.json', whether it
/// has 'public/lib/setup.php', the names of the directories in each plugin type's root directory, and
/// the subplugin types that plugins declare, by the plugins' directories. Also gives the warnings of
/// [`subplugin_types`].
///
/// Subplugin types behave exactly like top-level plugin types once discovered, and their frankenstyle
/// names use only the subtype (e.g. 'quizaccess_seb', not 'mod_quiz_quizaccess_seb').
pub fn discover_components(
    json: ComponentsJson,
    has_public_setup: bool,
    listings: &StringMap<Vec<String>>,
    subplugins: &StringMap<SubpluginsJson>,
) -> (r: (ComponentDiscovery, Vec<String>))
    ensures
        locations(r.0.components@) == all_components(
            &json,
            spec_dirroot_prefix(has_public_setup),
            found_in(&json, listings, subplugins),
        ),
        r.0.subsystems == json.subsystems,
        locations(r.0.plugin_types@) == declared_types(&json).union_prefer_right(
            subplugin_type_locations(&json, found_in(&json, listings, subplugins)),
        ),
        texts(r.1@) == rejections(
            all_declarations(&json, found_in(&json, listings, subplugins)),
            taken_names(&json),
        ),
{
    let ghost found = found_in(&json, listings, subplugins);
    let mut plugin_types = declared_plugin_types(&json);
    let subtypes = subplugin_types(&json, listings, subplugins);
    let mut components = core_and_subsystems(dirroot_prefix(has_public_setup), &json.subsystems);
    add_types(&mut components, &plugin_types, listings, &json.subsystems, Ghost(found));
    add_types(&mut components, &subtypes.types, listings, &json.subsystems, Ghost(found));
    add_all(&mut plugin_types, &subtypes.types);
    (ComponentDiscovery { components, subsystems: json.subsystems, plugin_types }, subtypes.warnings)
}

// ---------------------------------------------------------------------------------------------
// What holds of every codebase.

/// A subplugin type has the name of no declared plugin type and of no core subsystem.
pub proof fn subplugin_types_take_no_other_name(json: &ComponentsJson, found: Found, subtype: Seq<char>)
    requires
        subplugin_type_locations(json, found).contains_key(subtype),
    ensures
        !declared_types(json).contains_key(subtype),
        !json.subsystems@.contains_key(subtype),
{
    accepted_names_are_new(all_declarations(json, found), taken_names(json), subtype);
}

proof fn accepted_names_are_new(list: Seq<Declaration>, known: Set<Seq<char>>, subtype: Seq<char>)
    requires
        accepted(list, known).contains_key(subtype),
    ensures
        !known.contains(subtype),
    decreases list.len(),
{
    if list.len() > 0 && accepted(list.drop_last(), known).contains_key(subtype) {
        accepted_names_are_new(list.drop_last(), known, subtype);
    }
}

/// Of several declarations of a subplugin type the first counts, provided the name is free.
pub proof fn first_declaration_counts(list: Seq<Declaration>, known: Set<Seq<char>>, i: int)
    requires
        0 <= i < list.len(),
        !known.contains(list[i].subtype),
        forall|k: int| 0 <= k < i ==> (#[trigger] list[k]).subtype != list[i].subtype,
    ensures
        accepted(list, known).contains_key(list[i].subtype),
        accepted(list, known)[list[i].subtype] == list[i].dir,
    decreases list.len(),
{
    if i < list.len() - 1 {
        first_declaration_counts(list.drop_last(), known, i);
    } else {
        undeclared_is_not_accepted(list.drop_last(), known, list[i].subtype);
    }
}

proof fn undeclared_is_not_accepted(list: Seq<Declaration>, known: Set<Seq<char>>, subtype: Seq<char>)
    requires
        forall|k: int| 0 <= k < list.len() ==> (#[trigger] list[k]).subtype != subtype,
    ensures
        !accepted(list, known).contains_key(subtype),
    decreases list.len(),
{
    if list.len() > 0 {
        assert(list.last().subtype != subtype);
        undeclared_is_not_accepted(list.drop_last(), known, subtype);
    }
}

/// The declared plugin types and the subplugin types can be listed in order.
pub proof fn types_are_listed(json: &ComponentsJson, found: Found)
    requires
        json.valid(),
    ensures
        lists(in_order(declared_types(json).dom()), declared_types(json).dom()),
        lists(in_order(subplugin_type_locations(json, found).dom()), subplugin_type_locations(json, found).dom()),
{
    let first = json.plugintypes.spec_keys();
    let second = json.deprecatedplugintypes.spec_keys();
    let third = json.deletedplugintypes.spec_keys();
    let one = Set::new(|k: Seq<char>| first.contains(k));
    let two = one.union(Set::new(|k: Seq<char>| second.contains(k)));
    assert(lists(first, one));
    listable_union(one, second);
    listable_union(two, third);
    assert(declared_types(json).dom() =~= two.union(Set::new(|k: Seq<char>| third.contains(k))));
    accepted_is_listable(all_declarations(json, found), taken_names(json));
}

proof fn accepted_is_listable(list: Seq<Declaration>, known: Set<Seq<char>>)
    ensures
        listable(accepted(list, known).dom()),
    decreases list.len(),
{
    if list.len() == 0 {
        assert(lists(Seq::empty(), accepted(list, known).dom()));
    } else {
        let before = accepted(list.drop_last(), known);
        accepted_is_listable(list.drop_last(), known);
        listable_with(before.dom(), list.last().subtype);
        assert(before.insert(list.last().subtype, list.last().dir).dom() =~= before.dom().insert(list.last().subtype));
    }
}

/// Whether a component is a plugin of one of `types`, in the root directory of its type.
pub open spec fn is_plugin_of(found: Found, types: Locations, component: Seq<char>, location: Seq<char>) -> bool {
    exists|plugin_type: Seq<char>, name: Seq<char>|
        #![trigger frankenstyle(plugin_type, name)]
        {
            &&& types.contains_key(plugin_type)
            &&& plugins_of(found, plugin_type, types[plugin_type]).contains_key(name)
            &&& component == frankenstyle(plugin_type, name)
            &&& location == types[plugin_type] + "/"@ + name
        }
}

/// Every component is core, a core subsystem, or a plugin with a valid name in the root directory of its
/// type.
pub proof fn components_are_core_or_plugins(
    json: &ComponentsJson,
    prefix: Seq<char>,
    found: Found,
    component: Seq<char>,
)
    requires
        all_components(json, prefix, found).contains_key(component),
        json.valid(),
    ensures
        ({
            let core = core_components(prefix, json.subsystems@);
            let location = all_components(json, prefix, found)[component];
            ||| core.contains_key(component) && location == core[component]
            ||| is_plugin_of(found, declared_types(json), component, location)
            ||| is_plugin_of(found, subplugin_type_locations(json, found), component, location)
        }),
{
    let types = declared_types(json);
    let subtypes = subplugin_type_locations(json, found);
    let core = core_components(prefix, json.subsystems@);
    let plugins = with_plugins(found, core, types, in_order(types.dom()));
    types_are_listed(json, found);
    names_of_types(types);
    names_of_types(subtypes);
    plugin_or_before(found, plugins, subtypes, in_order(subtypes.dom()), component);
    if plugins.contains_key(component) {
        plugin_or_before(found, core, types, in_order(types.dom()), component);
    }
}

proof fn names_of_types(types: Locations)
    requires
        lists(in_order(types.dom()), types.dom()),
    ensures
        forall|i: int| 0 <= i < in_order(types.dom()).len() ==> types.contains_key(#[trigger] in_order(types.dom())[i]),
{
    let names = in_order(types.dom());
    assert forall|i: int| 0 <= i < names.len() implies types.contains_key(#[trigger] names[i]) by {
        assert(names.contains(names[i]));
    }
}

proof fn plugin_or_before(
    found: Found,
    before: Locations,
    types: Locations,
    names: Seq<Seq<char>>,
    component: Seq<char>,
)
    requires
        with_plugins(found, before, types, names).contains_key(component),
        forall|i: int| 0 <= i < names.len() ==> types.contains_key(#[trigger] names[i]),
    ensures
        ({
            let location = with_plugins(found, before, types, names)[component];
            ||| before.contains_key(component) && location == before[component]
            ||| is_plugin_of(found, types, component, location)
        }),
    decreases names.len(),
{
    if names.len() > 0 {
        let plugin_type = names.last();
        let plugins = plugins_of(found, plugin_type, types[plugin_type]);
        assert(types.contains_key(names[names.len() - 1]));
        if plugin_components(plugin_type, plugins).contains_key(component) {
            let name = choose|name: Seq<char>| #[trigger]
                plugins.contains_key(name) && component == frankenstyle(plugin_type, name);
            frankenstyle_ends_in_the_name(plugin_type, name);
        } else {
            plugin_or_before(found, before, types, names.drop_last(), component);
        }
    }
}

/// Core is always a component, at dirroot's 'lib'.
pub proof fn core_is_always_a_component(json: &ComponentsJson, prefix: Seq<char>, found: Found)
    ensures
        all_components(json, prefix, found).contains_key("core"@),
        all_components(json, prefix, found)["core"@] == prefix + "lib"@,
{
    let types = declared_types(json);
    let subtypes = subplugin_type_locations(json, found);
    let core = core_components(prefix, json.subsystems@);
    let plugins = with_plugins(found, core, types, in_order(types.dom()));
    core_stays(found, core, types, in_order(types.dom()));
    core_stays(found, plugins, subtypes, in_order(subtypes.dom()));
}

proof fn core_stays(found: Found, before: Locations, types: Locations, names: Seq<Seq<char>>)
    requires
        before.contains_key("core"@),
    ensures
        with_plugins(found, before, types, names).contains_key("core"@),
        with_plugins(found, before, types, names)["core"@] == before["core"@],
    decreases names.len(),
{
    if names.len() > 0 {
        core_stays(found, before, types, names.drop_last());
        let plugin_type = names.last();
        let plugins = plugins_of(found, plugin_type, types[plugin_type]);
        if plugin_components(plugin_type, plugins).contains_key("core"@) {
            let name = choose|name: Seq<char>| #[trigger]
                plugins.contains_key(name) && "core"@ == frankenstyle(plugin_type, name);
            reveal_strlit("core");
            reveal_strlit("_");
            assert(frankenstyle(plugin_type, name)[plugin_type.len() as int] == '_');
        }
    }
}

/// Every plugin is a component: a directory with a valid name, that is not reserved, in the root
/// directory of a plugin type.
pub proof fn every_plugin_is_a_component(
    json: &ComponentsJson,
    prefix: Seq<char>,
    found: Found,
    plugin_type: Seq<char>,
    name: Seq<char>,
)
    requires
        declared_types(json).contains_key(plugin_type) && plugins_of(
            found,
            plugin_type,
            declared_types(json)[plugin_type],
        ).contains_key(name) || subplugin_type_locations(json, found).contains_key(plugin_type) && plugins_of(
            found,
            plugin_type,
            subplugin_type_locations(json, found)[plugin_type],
        ).contains_key(name),
        json.valid(),
    ensures
        all_components(json, prefix, found).contains_key(frankenstyle(plugin_type, name)),
{
    let types = declared_types(json);
    let subtypes = subplugin_type_locations(json, found);
    let core = core_components(prefix, json.subsystems@);
    let plugins = with_plugins(found, core, types, in_order(types.dom()));
    let component = frankenstyle(plugin_type, name);
    types_are_listed(json, found);
    if types.contains_key(plugin_type) && plugins_of(found, plugin_type, types[plugin_type]).contains_key(name) {
        assert(in_order(types.dom()).contains(plugin_type));
        plugins_are_added(found, core, types, in_order(types.dom()), plugin_type, name);
        components_stay(found, plugins, subtypes, in_order(subtypes.dom()), component);
    } else {
        assert(in_order(subtypes.dom()).contains(plugin_type));
        plugins_are_added(found, plugins, subtypes, in_order(subtypes.dom()), plugin_type, name);
    }
}

pub proof fn components_stay(
    found: Found,
    before: Locations,
    types: Locations,
    names: Seq<Seq<char>>,
    component: Seq<char>,
)
    requires
        before.contains_key(component),
    ensures
        with_plugins(found, before, types, names).contains_key(component),
    decreases names.len(),
{
    if names.len() > 0 {
        components_stay(found, before, types, names.drop_last(), component);
    }
}

proof fn plugins_are_added(
    found: Found,
    before: Locations,
    types: Locations,
    names: Seq<Seq<char>>,
    plugin_type: Seq<char>,
    name: Seq<char>,
)
    requires
        names.contains(plugin_type),
        plugins_of(found, plugin_type, types[plugin_type]).contains_key(name),
    ensures
        with_plugins(found, before, types, names).contains_key(frankenstyle(plugin_type, name)),
    decreases names.len(),
{
    if names.last() == plugin_type {
        let plugins = plugins_of(found, plugin_type, types[plugin_type]);
        assert(plugin_components(plugin_type, plugins).contains_key(frankenstyle(plugin_type, name)));
    } else {
        let i = choose|i: int| 0 <= i < names.len() && names[i] == plugin_type;
        assert(names.drop_last()[i] == plugin_type);
        plugins_are_added(found, before, types, names.drop_last(), plugin_type, name);
    }
}

} // verus!
