//! The menu assembler: consumes resolved application entries with their
//! category tags, applies the category mapping, and collects deduplicated
//! entries per output category.

use vstd::prelude::*;

use crate::config::{cfg_output_of, cfg_outputs, lemma_output_of_in_outputs, CfgView, Config};
use crate::escape::{escape, spec_escape};
use crate::icons::lookup_icon;
use crate::menu::{cat_names, tree_as_map, tree_entries, tree_has_cat, tree_wf, CatView, EntryView,
    MenuEntry, MenuTree};

verus! {

/// One installed application's metadata as the core consumes it: category
/// tags, an optional localized display name, an optional command line, and
/// an optional icon name.
pub struct AppRecord {
    pub categories: Vec<String>,
    pub name: Option<String>,
    pub command: Option<String>,
    pub icon: Option<String>,
}

/// The mathematical value of an [`AppRecord`].
#[verifier::ext_equal]
pub struct RecordView {
    pub categories: Seq<Seq<char>>,
    pub name: Option<Seq<char>>,
    pub command: Option<Seq<char>>,
    pub icon: Option<Seq<char>>,
}

impl View for AppRecord {
    type V = RecordView;

    open spec fn view(&self) -> RecordView {
        RecordView {
            categories: self.categories.deep_view(),
            name: self.name.deep_view(),
            command: self.command.deep_view(),
            icon: self.icon.deep_view(),
        }
    }
}

/// The label a record yields: its display name, taken as empty when absent,
/// escaped.
pub open spec fn record_label(r: RecordView) -> Seq<char> {
    spec_escape(
        match r.name {
            Some(n) => n,
            None => Seq::empty(),
        },
    )
}

/// The command a record yields: its command line, taken as empty when
/// absent, passed through verbatim.
pub open spec fn record_command(r: RecordView) -> Seq<char> {
    match r.command {
        Some(x) => x,
        None => Seq::empty(),
    }
}

/// Builds the menu entry for one record: the label is the escaped display
/// name, the command is the raw command line, and the icon is resolved
/// against the given theme when the record names one; a record without an
/// icon name gets no icon.
pub fn make_entry(r: &AppRecord, theme: &str) -> (e: MenuEntry)
    ensures
        e@.label == record_label(r@),
        e@.command == record_command(r@),
        r.icon is None ==> e@.icon is None,
{
    let label = match &r.name {
        Some(n) => escape(n.as_str()),
        None => {
            proof {
                assert(spec_escape(Seq::<char>::empty()) =~= Seq::<char>::empty());
            }
            String::new()
        },
    };
    let command = match &r.command {
        Some(x) => x.clone(),
        None => String::new(),
    };
    let icon = match &r.icon {
        Some(name) => lookup_icon(name.as_str(), theme),
        None => None,
    };
    MenuEntry { label, command, icon }
}

/// An owned copy of a vector of strings.
fn clone_strings(v: &Vec<String>) -> (r: Vec<String>)
    ensures
        r.deep_view() == v.deep_view(),
{
    let n = v.len();
    let mut r: Vec<String> = Vec::new();
    let mut i: usize = 0;
    while i < n
        invariant
            i <= n,
            n == v@.len(),
            r@.len() == i,
            forall|k: int| 0 <= k < i ==> r@[k]@ == v@[k]@,
        decreases n - i,
    {
        r.push(v[i].clone());
        i = i + 1;
    }
    proof {
        assert(r.deep_view() =~= v.deep_view());
    }
    r
}

/// Resolves a batch of records: each record yields its menu entry (label
/// escaped, command verbatim, icon resolved in the given theme) and keeps
/// its category tags.
pub fn resolve_items(records: &Vec<AppRecord>, theme: &str) -> (items: Vec<TaggedEntry>)
    ensures
        items@.len() == records@.len(),
        forall|i: int|
            0 <= i < items@.len() ==> {
                &&& (#[trigger] items@[i])@.tags == records@[i]@.categories
                &&& items@[i]@.entry.label == record_label(records@[i]@)
                &&& items@[i]@.entry.command == record_command(records@[i]@)
                &&& (records@[i]@.icon is None ==> items@[i]@.entry.icon is None)
            },
{
    let n = records.len();
    let mut items: Vec<TaggedEntry> = Vec::new();
    let mut i: usize = 0;
    while i < n
        invariant
            i <= n,
            n == records@.len(),
            items@.len() == i,
            forall|k: int|
                0 <= k < i ==> {
                    &&& (#[trigger] items@[k])@.tags == records@[k]@.categories
                    &&& items@[k]@.entry.label == record_label(records@[k]@)
                    &&& items@[k]@.entry.command == record_command(records@[k]@)
                    &&& (records@[k]@.icon is None ==> items@[k]@.entry.icon is None)
                },
        decreases n - i,
    {
        let record = &records[i];
        let entry = make_entry(record, theme);
        let tags = clone_strings(&record.categories);
        items.push(TaggedEntry { entry, tags });
        i = i + 1;
    }
    items
}

/// One application's resolved menu entry together with the category tags
/// the application declared.
pub struct TaggedEntry {
    pub entry: MenuEntry,
    pub tags: Vec<String>,
}

/// The mathematical value of a [`TaggedEntry`].
#[verifier::ext_equal]
pub struct ItemView {
    pub entry: EntryView,
    pub tags: Seq<Seq<char>>,
}

impl View for TaggedEntry {
    type V = ItemView;

    open spec fn view(&self) -> ItemView {
        ItemView { entry: self.entry@, tags: self.tags.deep_view() }
    }
}

/// The item values of a sequence of tagged entries.
pub open spec fn item_views(items: Seq<TaggedEntry>) -> Seq<ItemView> {
    Seq::new(items.len(), |i: int| items[i]@)
}

/// Whether processing position `(i2, j2)` lies strictly before the cursor
/// `(i, j)` in the row-major order the assembler walks items and tags in.
pub open spec fn step_before(i2: int, j2: int, i: int, j: int) -> bool {
    i2 < i || (i2 == i && j2 < j)
}

/// The entries collected under output category `c` after the assembler has
/// processed every position before the cursor `(i, j)`.
pub open spec fn partial_set(
    items: Seq<ItemView>,
    cfg: CfgView,
    c: Seq<char>,
    i: int,
    j: int,
) -> Set<EntryView> {
    Set::new(
        |e: EntryView|
            exists|i2: int, j2: int|
                #![auto]
                0 <= i2 < items.len() && 0 <= j2 < items[i2].tags.len() && step_before(i2, j2, i, j)
                    && items[i2].entry == e && cfg_output_of(cfg, items[i2].tags[j2]) == Some(c),
    )
}

/// The assembled menu up to the cursor `(i, j)`.
pub open spec fn spec_assemble_partial(
    items: Seq<ItemView>,
    cfg: CfgView,
    i: int,
    j: int,
) -> Map<Seq<char>, Set<EntryView>> {
    Map::new(
        |c: Seq<char>| cfg_outputs(cfg).contains(c),
        |c: Seq<char>| partial_set(items, cfg, c, i, j),
    )
}

/// The assembled menu: every output category reachable from the source
/// mapping is present, and an entry value stands under a category exactly
/// when some item carries it and one of that item's tags maps there.
pub open spec fn spec_assemble(items: Seq<ItemView>, cfg: CfgView) -> Map<
    Seq<char>,
    Set<EntryView>,
> {
    Map::new(
        |c: Seq<char>| cfg_outputs(cfg).contains(c),
        |c: Seq<char>|
            Set::new(
                |e: EntryView|
                    exists|i2: int, j2: int|
                        #![auto]
                        0 <= i2 < items.len() && 0 <= j2 < items[i2].tags.len()
                            && items[i2].entry == e && cfg_output_of(cfg, items[i2].tags[j2])
                            == Some(c),
            ),
    )
}

/// Category fan-out: when one of an item's tags maps to an output
/// category, the item's entry stands in the assembled menu under that
/// category; an item tagged with several mapped categories thus appears
/// under each of them.
pub proof fn lemma_fan_out(items: Seq<ItemView>, cfg: CfgView, i: int, j: int)
    requires
        0 <= i < items.len(),
        0 <= j < items[i].tags.len(),
        cfg_output_of(cfg, items[i].tags[j]) is Some,
    ensures
        spec_assemble(items, cfg).dom().contains(cfg_output_of(cfg, items[i].tags[j])->0),
        spec_assemble(items, cfg)[cfg_output_of(cfg, items[i].tags[j])->0].contains(
            items[i].entry,
        ),
{
    let c = cfg_output_of(cfg, items[i].tags[j])->0;
    lemma_output_of_in_outputs(cfg, items[i].tags[j]);
    assert(cfg_outputs(cfg).contains(c));
    assert(0 <= i < items.len() && 0 <= j < items[i].tags.len() && items[i].entry
        == items[i].entry && cfg_output_of(cfg, items[i].tags[j]) == Some(c));
    assert(spec_assemble(items, cfg)[c].contains(items[i].entry));
}

/// An unmapped item is ignored: when none of an item's tags is a key of the
/// source mapping, removing the item from the input leaves the assembled
/// menu unchanged.
pub proof fn lemma_unmapped_ignored(items: Seq<ItemView>, cfg: CfgView, i: int)
    requires
        0 <= i < items.len(),
        forall|j: int|
            0 <= j < items[i].tags.len() ==> cfg_output_of(cfg, #[trigger] items[i].tags[j])
                is None,
    ensures
        spec_assemble(items, cfg) == spec_assemble(items.remove(i), cfg),
{
    let rest = items.remove(i);
    assert(rest.len() == items.len() - 1);
    assert forall|c: Seq<char>| cfg_outputs(cfg).contains(c) implies #[trigger] spec_assemble(
        items,
        cfg,
    )[c] =~= spec_assemble(rest, cfg)[c] by {
        assert forall|e: EntryView| spec_assemble(items, cfg)[c].contains(e) implies spec_assemble(
            rest,
            cfg,
        )[c].contains(e) by {
            let (i2, j2) = choose|i2: int, j2: int|
                #![auto]
                0 <= i2 < items.len() && 0 <= j2 < items[i2].tags.len() && items[i2].entry == e
                    && cfg_output_of(cfg, items[i2].tags[j2]) == Some(c);
            assert(i2 != i);
            if i2 < i {
                assert(rest[i2] == items[i2]);
                assert(rest[i2].entry == e && cfg_output_of(cfg, rest[i2].tags[j2]) == Some(c));
            } else {
                assert(rest[i2 - 1] == items[i2]);
                assert(rest[i2 - 1].entry == e && cfg_output_of(cfg, rest[i2 - 1].tags[j2])
                    == Some(c));
            }
        }
        assert forall|e: EntryView| spec_assemble(rest, cfg)[c].contains(e) implies spec_assemble(
            items,
            cfg,
        )[c].contains(e) by {
            let (i2, j2) = choose|i2: int, j2: int|
                #![auto]
                0 <= i2 < rest.len() && 0 <= j2 < rest[i2].tags.len() && rest[i2].entry == e
                    && cfg_output_of(cfg, rest[i2].tags[j2]) == Some(c);
            if i2 < i {
                assert(items[i2] == rest[i2]);
                assert(items[i2].entry == e && cfg_output_of(cfg, items[i2].tags[j2]) == Some(c));
            } else {
                assert(items[i2 + 1] == rest[i2]);
                assert(items[i2 + 1].entry == e && cfg_output_of(cfg, items[i2 + 1].tags[j2])
                    == Some(c));
            }
        }
    }
    assert(spec_assemble(items, cfg) =~~= spec_assemble(rest, cfg));
}

/// Equal category-name sequences give the same category membership.
proof fn lemma_has_cat_from_names(tv1: Seq<CatView>, tv2: Seq<CatView>)
    requires
        cat_names(tv1) == cat_names(tv2),
    ensures
        forall|c: Seq<char>| tree_has_cat(tv1, c) <==> tree_has_cat(tv2, c),
{
    assert(cat_names(tv1).len() == tv1.len());
    assert(cat_names(tv2).len() == tv2.len());
    assert forall|c: Seq<char>| tree_has_cat(tv1, c) <==> tree_has_cat(tv2, c) by {
        if tree_has_cat(tv1, c) {
            let k = choose|k: int| 0 <= k < tv1.len() && tv1[k].name == c;
            assert(cat_names(tv1)[k] == c);
            assert(cat_names(tv2)[k] == c);
            assert(tv2[k].name == c);
        }
        if tree_has_cat(tv2, c) {
            let k = choose|k: int| 0 <= k < tv2.len() && tv2[k].name == c;
            assert(cat_names(tv2)[k] == c);
            assert(cat_names(tv1)[k] == c);
            assert(tv1[k].name == c);
        }
    }
}

/// Builds the menu tree for the given items under the given configuration.
///
/// The tree is well-formed (strictly ascending categories and entries) and
/// its value as a map from category name to entry set is exactly
/// [`spec_assemble`]: deduplication, fan-out over multiple tags, and the
/// silent dropping of unmapped tags all follow from that equality.
pub fn assemble(items: &Vec<TaggedEntry>, cfg: &Config) -> (tree: MenuTree)
    ensures
        tree_wf(tree@),
        tree_as_map(tree@) == spec_assemble(item_views(items@), cfg@),
{
    let ghost itemsv = item_views(items@);
    let mut tree = cfg.empty_hash();
    proof {
        assert forall|c: Seq<char>|
            cfg_outputs(cfg@).contains(c) implies #[trigger] tree_entries(tree@, c)
            =~= partial_set(itemsv, cfg@, c, 0, 0) by {
            assert forall|e: EntryView| !tree_entries(tree@, c).contains(e) by {
                if tree_entries(tree@, c).contains(e) {
                    let (k, m) = choose|k: int, m: int|
                        0 <= k < tree@.len() && tree@[k].name == c && 0 <= m
                            < tree@[k].entries.len() && tree@[k].entries[m] == e;
                }
            }
        }
        assert(tree_as_map(tree@) =~~= spec_assemble_partial(itemsv, cfg@, 0, 0));
    }
    let n = items.len();
    let mut i: usize = 0;
    while i < n
        invariant
            i <= n,
            n == items@.len(),
            itemsv == item_views(items@),
            tree_wf(tree@),
            forall|c: Seq<char>| tree_has_cat(tree@, c) <==> cfg_outputs(cfg@).contains(c),
            tree_as_map(tree@) == spec_assemble_partial(itemsv, cfg@, i as int, 0),
        decreases n - i,
    {
        let item = &items[i];
        let tn = item.tags.len();
        let mut j: usize = 0;
        while j < tn
            invariant
                j <= tn,
                i < n,
                n == items@.len(),
                tn == items@[i as int]@.tags.len(),
                item == &items@[i as int],
                itemsv == item_views(items@),
                tree_wf(tree@),
                forall|c: Seq<char>| tree_has_cat(tree@, c) <==> cfg_outputs(cfg@).contains(c),
                tree_as_map(tree@) == spec_assemble_partial(itemsv, cfg@, i as int, j as int),
            decreases tn - j,
        {
            let ghost oldtree = tree@;
            let tag = &item.tags[j];
            match cfg.output_for(tag) {
                Some(out) => {
                    proof {
                        assert(tag@ == itemsv[i as int].tags[j as int]);
                        assert(cfg_output_of(cfg@, tag@) == Some(out@));
                        lemma_output_of_in_outputs(cfg@, tag@);
                        assert(tree_has_cat(tree@, out@));
                    }
                    tree.insert(&out, item.entry.duplicate());
                    proof {
                        lemma_has_cat_from_names(oldtree, tree@);
                        assert forall|c: Seq<char>|
                            cfg_outputs(cfg@).contains(c) implies #[trigger] partial_set(
                            itemsv,
                            cfg@,
                            c,
                            i as int,
                            j + 1 as int,
                        ) =~= (if c == out@ {
                            partial_set(itemsv, cfg@, c, i as int, j as int).insert(
                                itemsv[i as int].entry,
                            )
                        } else {
                            partial_set(itemsv, cfg@, c, i as int, j as int)
                        }) by {
                            let before = partial_set(itemsv, cfg@, c, i as int, j as int);
                            let after = partial_set(itemsv, cfg@, c, i as int, j + 1 as int);
                            assert forall|e: EntryView| after.contains(e) implies (if c == out@ {
                                before.insert(itemsv[i as int].entry)
                            } else {
                                before
                            }).contains(e) by {
                                let (i2, j2) = choose|i2: int, j2: int|
                                    #![auto]
                                    0 <= i2 < itemsv.len() && 0 <= j2 < itemsv[i2].tags.len() && step_before(
                                        i2,
                                        j2,
                                        i as int,
                                        j + 1 as int,
                                    ) && itemsv[i2].entry == e && cfg_output_of(
                                        cfg@,
                                        itemsv[i2].tags[j2],
                                    ) == Some(c);
                                if i2 == i as int && j2 == j as int {
                                    assert(c == out@);
                                    assert(e == itemsv[i as int].entry);
                                } else {
                                    assert(step_before(i2, j2, i as int, j as int));
                                    assert(before.contains(e));
                                }
                            }
                            assert forall|e: EntryView| (if c == out@ {
                                before.insert(itemsv[i as int].entry)
                            } else {
                                before
                            }).contains(e) implies after.contains(e) by {
                                if c == out@ && e == itemsv[i as int].entry && !before.contains(e) {
                                    let ii = i as int;
                                    let jj = j as int;
                                    assert(0 <= ii < itemsv.len() && 0 <= jj
                                        < itemsv[ii].tags.len() && step_before(ii, jj, ii, jj + 1)
                                        && itemsv[ii].entry == e && cfg_output_of(
                                        cfg@,
                                        itemsv[ii].tags[jj],
                                    ) == Some(c));
                                } else {
                                    let (i2, j2) = choose|i2: int, j2: int|
                                        #![auto]
                                        0 <= i2 < itemsv.len() && 0 <= j2 < itemsv[i2].tags.len() && step_before(
                                            i2,
                                            j2,
                                            i as int,
                                            j as int,
                                        ) && itemsv[i2].entry == e && cfg_output_of(
                                            cfg@,
                                            itemsv[i2].tags[j2],
                                        ) == Some(c);
                                    assert(step_before(i2, j2, i as int, j + 1 as int));
                                }
                            }
                        }
                        assert(itemsv[i as int].entry == item.entry@);
                        assert(tree_entries(oldtree, out@) == tree_as_map(oldtree)[out@]);
                        assert(tree_as_map(tree@) =~~= spec_assemble_partial(
                            itemsv,
                            cfg@,
                            i as int,
                            j + 1 as int,
                        ));
                    }
                },
                None => {
                    proof {
                        assert(tag@ == itemsv[i as int].tags[j as int]);
                        assert(cfg_output_of(cfg@, tag@) is None);
                        assert forall|c: Seq<char>|
                            cfg_outputs(cfg@).contains(c) implies #[trigger] partial_set(
                            itemsv,
                            cfg@,
                            c,
                            i as int,
                            j + 1 as int,
                        ) =~= partial_set(itemsv, cfg@, c, i as int, j as int) by {
                            let before = partial_set(itemsv, cfg@, c, i as int, j as int);
                            let after = partial_set(itemsv, cfg@, c, i as int, j + 1 as int);
                            assert forall|e: EntryView| after.contains(e) implies before.contains(
                                e,
                            ) by {
                                let (i2, j2) = choose|i2: int, j2: int|
                                    #![auto]
                                    0 <= i2 < itemsv.len() && 0 <= j2 < itemsv[i2].tags.len() && step_before(
                                        i2,
                                        j2,
                                        i as int,
                                        j + 1 as int,
                                    ) && itemsv[i2].entry == e && cfg_output_of(
                                        cfg@,
                                        itemsv[i2].tags[j2],
                                    ) == Some(c);
                                assert(!(i2 == i as int && j2 == j as int));
                                assert(step_before(i2, j2, i as int, j as int));
                            }
                            assert forall|e: EntryView| before.contains(e) implies after.contains(
                                e,
                            ) by {
                                let (i2, j2) = choose|i2: int, j2: int|
                                    #![auto]
                                    0 <= i2 < itemsv.len() && 0 <= j2 < itemsv[i2].tags.len() && step_before(
                                        i2,
                                        j2,
                                        i as int,
                                        j as int,
                                    ) && itemsv[i2].entry == e && cfg_output_of(
                                        cfg@,
                                        itemsv[i2].tags[j2],
                                    ) == Some(c);
                                assert(step_before(i2, j2, i as int, j + 1 as int));
                            }
                        }
                        assert(tree_as_map(tree@) =~~= spec_assemble_partial(
                            itemsv,
                            cfg@,
                            i as int,
                            j + 1 as int,
                        ));
                    }
                },
            }
            j = j + 1;
        }
        proof {
            assert forall|c: Seq<char>|
                cfg_outputs(cfg@).contains(c) implies #[trigger] partial_set(
                itemsv,
                cfg@,
                c,
                i + 1 as int,
                0,
            ) =~= partial_set(itemsv, cfg@, c, i as int, tn as int) by {
                assert forall|e: EntryView|
                    partial_set(itemsv, cfg@, c, i + 1 as int, 0).contains(e) implies partial_set(
                    itemsv,
                    cfg@,
                    c,
                    i as int,
                    tn as int,
                ).contains(e) by {
                    let (i2, j2) = choose|i2: int, j2: int|
                        #![auto]
                        0 <= i2 < itemsv.len() && 0 <= j2 < itemsv[i2].tags.len() && step_before(i2, j2, i + 1 as int, 0)
                            && itemsv[i2].entry == e && cfg_output_of(cfg@, itemsv[i2].tags[j2])
                            == Some(c);
                    assert(step_before(i2, j2, i as int, tn as int));
                }
                assert forall|e: EntryView|
                    partial_set(itemsv, cfg@, c, i as int, tn as int).contains(
                        e,
                    ) implies partial_set(itemsv, cfg@, c, i + 1 as int, 0).contains(e) by {
                    let (i2, j2) = choose|i2: int, j2: int|
                        #![auto]
                        0 <= i2 < itemsv.len() && 0 <= j2 < itemsv[i2].tags.len() && step_before(i2, j2, i as int, tn as int)
                            && itemsv[i2].entry == e && cfg_output_of(cfg@, itemsv[i2].tags[j2])
                            == Some(c);
                    assert(step_before(i2, j2, i + 1 as int, 0));
                }
            }
            assert(spec_assemble_partial(itemsv, cfg@, i + 1 as int, 0) =~~= spec_assemble_partial(
                itemsv,
                cfg@,
                i as int,
                tn as int,
            ));
        }
        i = i + 1;
    }
    proof {
        assert forall|c: Seq<char>|
            cfg_outputs(cfg@).contains(c) implies #[trigger] partial_set(
            itemsv,
            cfg@,
            c,
            n as int,
            0,
        ) =~= spec_assemble(itemsv, cfg@)[c] by {
            assert forall|e: EntryView|
                partial_set(itemsv, cfg@, c, n as int, 0).contains(e) <==> spec_assemble(
                    itemsv,
                    cfg@,
                )[c].contains(e) by {
                if partial_set(itemsv, cfg@, c, n as int, 0).contains(e) {
                    let (i2, j2) = choose|i2: int, j2: int|
                        #![auto]
                        0 <= i2 < itemsv.len() && 0 <= j2 < itemsv[i2].tags.len() && step_before(i2, j2, n as int, 0)
                            && itemsv[i2].entry == e && cfg_output_of(cfg@, itemsv[i2].tags[j2])
                            == Some(c);
                    assert(spec_assemble(itemsv, cfg@)[c].contains(e));
                }
                if spec_assemble(itemsv, cfg@)[c].contains(e) {
                    let (i2, j2) = choose|i2: int, j2: int|
                        #![auto]
                        0 <= i2 < itemsv.len() && 0 <= j2 < itemsv[i2].tags.len() && itemsv[i2].entry == e && cfg_output_of(
                            cfg@,
                            itemsv[i2].tags[j2],
                        ) == Some(c);
                    assert(step_before(i2, j2, n as int, 0));
                    assert(partial_set(itemsv, cfg@, c, n as int, 0).contains(e));
                }
            }
        }
        assert(tree_as_map(tree@) =~~= spec_assemble(itemsv, cfg@));
    }
    tree
}

} // verus!
