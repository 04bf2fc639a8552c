//! The end-to-end pipeline: application records in, XML document out.

use vstd::prelude::*;

use crate::assemble::{assemble, item_views, record_command, record_label, resolve_items,
    spec_assemble, AppRecord, ItemView, RecordView};
use crate::config::{CfgView, Config};
use crate::icons::category_icons;
use crate::menu::{tree_as_map, tree_wf, CatView};
use crate::xml::{serialize, spec_document};

verus! {

/// The record values of a sequence of records.
pub open spec fn record_views(records: Seq<AppRecord>) -> Seq<RecordView> {
    Seq::new(records.len(), |i: int| records[i]@)
}

/// What one run of the pipeline leaves behind: items derived from the
/// records one for one (labels escaped, commands verbatim, icons being
/// whatever resolution returned), a well-formed tree that assembles exactly
/// those items, per-category icon-resolution outcomes, and the document
/// serializing that tree with those icons.
pub open spec fn pipeline_post(
    records: Seq<RecordView>,
    cfg: CfgView,
    out: Seq<char>,
    items: Seq<ItemView>,
    tv: Seq<CatView>,
    icons: Seq<Option<Seq<char>>>,
) -> bool {
    &&& items.len() == records.len()
    &&& (forall|i: int|
        0 <= i < items.len() ==> {
            &&& (#[trigger] items[i]).tags == records[i].categories
            &&& items[i].entry.label == record_label(records[i])
            &&& items[i].entry.command == record_command(records[i])
            &&& (records[i].icon is None ==> items[i].entry.icon is None)
        })
    &&& tree_wf(tv)
    &&& tree_as_map(tv) == spec_assemble(items, cfg)
    &&& icons.len() == tv.len()
    &&& out == spec_document(tv, icons)
}

/// Runs the whole core on already-enumerated records: resolves each record
/// to a menu entry, assembles the menu tree under the configuration,
/// resolves the per-category icons, and serializes the document.
pub fn render_menu(records: &Vec<AppRecord>, cfg: &Config, theme: &str) -> (out: String)
    ensures
        exists|items: Seq<ItemView>, tv: Seq<CatView>, icons: Seq<Option<Seq<char>>>|
            #[trigger] pipeline_post(record_views(records@), cfg@, out@, items, tv, icons),
{
    let items = resolve_items(records, theme);
    let tree = assemble(&items, cfg);
    let icons = category_icons(&tree, cfg, theme);
    let out = serialize(&tree, &icons);
    proof {
        let itemsv = item_views(items@);
        let recordsv = record_views(records@);
        assert forall|i: int|
            0 <= i < itemsv.len() implies {
            &&& (#[trigger] itemsv[i]).tags == recordsv[i].categories
            &&& itemsv[i].entry.label == record_label(recordsv[i])
            &&& itemsv[i].entry.command == record_command(recordsv[i])
            &&& (recordsv[i].icon is None ==> itemsv[i].entry.icon is None)
        } by {
            assert(itemsv[i] == items@[i]@);
            assert(recordsv[i] == records@[i]@);
        }
        assert(pipeline_post(recordsv, cfg@, out@, itemsv, tree@, icons.deep_view()));
    }
    out
}

} // verus!
