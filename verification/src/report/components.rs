//! The report of the components of a codebase.

use vstd::prelude::*;

use crate::moodle::components::ComponentDiscovery;
use crate::path_finder::text_of;
use crate::report::document::Document;
use crate::report::document::csv_document;
use crate::report::document::document_grows;
use crate::report::document::text_field;
use crate::report::document::text_or_empty;
use crate::report::paths::add_all;
use crate::text::concat3;
use crate::text::decimal;
use crate::text::decimal_of;
use crate::text::texts;

verus! {

/// The records of the components, in the order of their names.
pub open spec fn component_rows(discovered: &ComponentDiscovery) -> Seq<Seq<Seq<char>>> {
    Seq::new(
        discovered.components.spec_keys().len(),
        |i: int| seq![discovered.components.spec_keys()[i], discovered.components.spec_values()[i]@],
    )
}

/// The records of the subsystems, in the order of their names.
pub open spec fn subsystem_rows(discovered: &ComponentDiscovery) -> Seq<Seq<Seq<char>>> {
    Seq::new(
        discovered.subsystems.spec_keys().len(),
        |i: int|
            seq![
                "subsystem"@,
                discovered.subsystems.spec_keys()[i],
                text_field(text_of(discovered.subsystems.spec_values()[i])),
            ],
    )
}

/// The records of the plugin types, in the order of their names.
pub open spec fn plugin_type_rows(discovered: &ComponentDiscovery) -> Seq<Seq<Seq<char>>> {
    Seq::new(
        discovered.plugin_types.spec_keys().len(),
        |i: int|
            seq![
                "plugintype"@,
                discovered.plugin_types.spec_keys()[i],
                discovered.plugin_types.spec_values()[i]@,
            ],
    )
}

fn record2(a: &str, b: &str) -> (r: Vec<String>)
    ensures
        texts(r@) == seq![a@, b@],
        r.len() == 2,
{
    let mut r: Vec<String> = Vec::new();
    let fields: [&str; 2] = [a, b];
    add_all(&mut r, &fields);
    assert(texts(r@) =~= seq![a@, b@]);
    assert(texts(r@).len() == r.len());
    r
}

fn record3(a: &str, b: &str, c: &str) -> (r: Vec<String>)
    ensures
        texts(r@) == seq![a@, b@, c@],
        r.len() == 3,
{
    let mut r: Vec<String> = Vec::new();
    let fields: [&str; 3] = [a, b, c];
    add_all(&mut r, &fields);
    assert(texts(r@) =~= seq![a@, b@, c@]);
    assert(texts(r@).len() == r.len());
    r
}

/// The components of a codebase and their locations, as a CSV document.
pub fn components_report(discovered: &ComponentDiscovery) -> (r: String)
    ensures
        r@ == csv_document(seq![seq!["component"@, "path"@]] + component_rows(discovered)),
{
    let mut document = Document::new(&record2("component", "path"));
    let n = discovered.components.len();
    let ghost top = seq![seq!["component"@, "path"@]];
    let ghost rows = component_rows(discovered);
    let mut i: usize = 0;
    assert(top + rows.take(0) =~= top);
    while i < n
        invariant
            i <= n,
            n == rows.len(),
            n == discovered.components.spec_keys().len(),
            rows == component_rows(discovered),
            document.written() == csv_document(top + rows.take(i as int)),
        decreases n - i,
    {
        document.add_record(&record2(discovered.components.key_at(i), discovered.components.value_at(i)));
        proof {
            document_grows(top + rows.take(i as int), rows[i as int]);
            assert((top + rows.take(i as int)).push(rows[i as int]) =~= top + rows.take(i + 1));
        }
        i += 1;
    }
    assert(rows.take(n as int) =~= rows);
    document.finish()
}

/// The subsystem and plugin type directories of a codebase, as a CSV document.
pub fn type_dirs_report(discovered: &ComponentDiscovery) -> (r: String)
    ensures
        r@ == csv_document(
            seq![seq!["kind"@, "name"@, "path"@]] + subsystem_rows(discovered) + plugin_type_rows(discovered),
        ),
{
    let mut document = Document::new(&record3("kind", "name", "path"));
    let n = discovered.subsystems.len();
    let ghost top = seq![seq!["kind"@, "name"@, "path"@]];
    let ghost rows = subsystem_rows(discovered);
    let mut i: usize = 0;
    assert(top + rows.take(0) =~= top);
    while i < n
        invariant
            i <= n,
            n == rows.len(),
            n == discovered.subsystems.spec_keys().len(),
            rows == subsystem_rows(discovered),
            document.written() == csv_document(top + rows.take(i as int)),
        decreases n - i,
    {
        let path = text_or_empty(discovered.subsystems.value_at(i));
        document.add_record(&record3("subsystem", discovered.subsystems.key_at(i), &path));
        proof {
            document_grows(top + rows.take(i as int), rows[i as int]);
            assert((top + rows.take(i as int)).push(rows[i as int]) =~= top + rows.take(i + 1));
        }
        i += 1;
    }
    assert(rows.take(n as int) =~= rows);
    let ghost before = top + rows;
    let m = discovered.plugin_types.len();
    let ghost more = plugin_type_rows(discovered);
    let mut k: usize = 0;
    assert(before + more.take(0) =~= before);
    while k < m
        invariant
            k <= m,
            m == more.len(),
            m == discovered.plugin_types.spec_keys().len(),
            more == plugin_type_rows(discovered),
            document.written() == csv_document(before + more.take(k as int)),
        decreases m - k,
    {
        document.add_record(
            &record3("plugintype", discovered.plugin_types.key_at(k), discovered.plugin_types.value_at(k)),
        );
        proof {
            document_grows(before + more.take(k as int), more[k as int]);
            assert((before + more.take(k as int)).push(more[k as int]) =~= before + more.take(k + 1));
        }
        k += 1;
    }
    assert(more.take(m as int) =~= more);
    document.finish()
}

/// The summary of the components that were found, or of the subsystems and plugin types.
pub open spec fn components_summary_text(discovered: &ComponentDiscovery, type_dirs: bool) -> Seq<char> {
    if type_dirs {
        "Found "@ + decimal(discovered.subsystems.spec_keys().len()) + " subsystems and "@ + decimal(
            discovered.plugin_types.spec_keys().len(),
        ) + " plugin types"@
    } else {
        "Found "@ + decimal(discovered.components.spec_keys().len()) + " components"@
    }
}

/// The summary of the components that were found, or of the subsystems and plugin types.
pub fn components_summary(discovered: &ComponentDiscovery, type_dirs: bool) -> (r: String)
    ensures
        r@ == components_summary_text(discovered, type_dirs),
{
    if type_dirs {
        let start = concat3("Found ", &decimal_of(discovered.subsystems.len() as u64), " subsystems and ");
        concat3(&start, &decimal_of(discovered.plugin_types.len() as u64), " plugin types")
    } else {
        concat3("Found ", &decimal_of(discovered.components.len() as u64), " components")
    }
}

} // verus!
