//! The menu serializer: renders the assembled tree into the XML document,
//! category by category in the tree's (strictly ascending) order, entries in
//! their (strictly ascending) order. Labels arrive already escaped; command
//! strings are emitted verbatim by design. A category with no entries is
//! still emitted: the tree pre-populates every configured output category.

use vstd::prelude::*;

use crate::menu::{CatView, EntryView, MenuEntry, MenuTree};

verus! {

/// The XML declaration and the opening root element.
pub open spec fn xml_header() -> Seq<char> {
    "<?xml version=\"1.0\" encoding=\"UTF-8\"?>\n"@
        + "<openbox_menu xmlns=\"http://openbox.org/\" xmlns:xsi=\"http://www.w3.org/2001/XMLSchema-instance\" xsi:schemaLocation=\"http://openbox.org/\" >\n"@
}

/// An optional `icon` attribute, with its leading space.
pub open spec fn spec_icon_attr(icon: Option<Seq<char>>) -> Seq<char> {
    match icon {
        Some(p) => " icon=\""@ + p + "\""@,
        None => Seq::empty(),
    }
}

/// One menu item: the escaped label, the optional icon attribute, and the
/// nested `Execute` action whose command child holds the raw command
/// verbatim.
pub open spec fn spec_item(e: EntryView) -> Seq<char> {
    "<item label=\""@ + e.label + "\""@ + spec_icon_attr(e.icon)
        + "><action name=\"Execute\"><command>"@ + e.command + "</command></action></item>\n"@
}

/// The first `m` items of a category, concatenated.
pub open spec fn spec_items_prefix(es: Seq<EntryView>, m: int) -> Seq<char>
    decreases m,
{
    if m <= 0 {
        Seq::empty()
    } else {
        spec_items_prefix(es, m - 1) + spec_item(es[m - 1])
    }
}

/// The opening tag of one category's menu element: an `id` derived from the
/// category name by a fixed prefix, a `label` equal to the name, and the
/// category's optional icon attribute.
pub open spec fn spec_menu_open(name: Seq<char>, icon: Option<Seq<char>>) -> Seq<char> {
    "<menu id=\"boxmenu-"@ + name + "\" label=\""@ + name + "\" "@ + spec_icon_attr(icon)
        + ">\n"@
}

/// One whole category element.
pub open spec fn spec_category(cv: CatView, icon: Option<Seq<char>>) -> Seq<char> {
    spec_menu_open(cv.name, icon) + spec_items_prefix(cv.entries, cv.entries.len() as int)
        + "</menu>\n"@
}

/// The first `k` categories of the tree, concatenated.
pub open spec fn spec_cats_prefix(tv: Seq<CatView>, icons: Seq<Option<Seq<char>>>, k: int) -> Seq<
    char,
>
    decreases k,
{
    if k <= 0 {
        Seq::empty()
    } else {
        spec_cats_prefix(tv, icons, k - 1) + spec_category(tv[k - 1], icons[k - 1])
    }
}

/// The whole document: header, every category in tree order, and the
/// closing root tag.
pub open spec fn spec_document(tv: Seq<CatView>, icons: Seq<Option<Seq<char>>>) -> Seq<char> {
    xml_header() + spec_cats_prefix(tv, icons, tv.len() as int) + "</openbox_menu>\n"@
}

/// Appends one rendered menu item.
fn append_item(out: &mut String, e: &MenuEntry)
    ensures
        final(out)@ == old(out)@ + spec_item(e@),
{
    out.append("<item label=\"");
    out.append(e.label.as_str());
    out.append("\"");
    match &e.icon {
        Some(p) => {
            out.append(" icon=\"");
            out.append(p.as_str());
            out.append("\"");
        },
        None => {},
    }
    out.append("><action name=\"Execute\"><command>");
    out.append(e.command.as_str());
    out.append("</command></action></item>\n");
    proof {
        assert(out@ =~= old(out)@ + spec_item(e@));
    }
}

/// Serializes the assembled menu; `icons[k]` is the resolved icon path of
/// the tree's `k`-th category, if that category's icon name resolved to
/// one.
#[verifier::rlimit(50)]
pub fn serialize(tree: &MenuTree, icons: &Vec<Option<String>>) -> (out: String)
    requires
        icons@.len() == tree@.len(),
    ensures
        out@ == spec_document(tree@, icons.deep_view()),
{
    let ghost iconsv = icons.deep_view();
    let mut out = String::from_str("<?xml version=\"1.0\" encoding=\"UTF-8\"?>\n");
    out.append(
        "<openbox_menu xmlns=\"http://openbox.org/\" xmlns:xsi=\"http://www.w3.org/2001/XMLSchema-instance\" xsi:schemaLocation=\"http://openbox.org/\" >\n",
    );
    proof {
        assert(out@ =~= xml_header() + spec_cats_prefix(tree@, iconsv, 0));
    }
    let n = tree.cats.len();
    let mut k: usize = 0;
    while k < n
        invariant
            k <= n,
            n == tree.cats@.len(),
            iconsv == icons.deep_view(),
            iconsv.len() == tree@.len(),
            out@ == xml_header() + spec_cats_prefix(tree@, iconsv, k as int),
        decreases n - k,
    {
        let cat = &tree.cats[k];
        let ghost mark = out@;
        out.append("<menu id=\"boxmenu-");
        out.append(cat.name.as_str());
        out.append("\" label=\"");
        out.append(cat.name.as_str());
        out.append("\" ");
        match &icons[k] {
            Some(p) => {
                out.append(" icon=\"");
                out.append(p.as_str());
                out.append("\"");
            },
            None => {},
        }
        out.append(">\n");
        proof {
            assert(iconsv[k as int] == icons@[k as int].deep_view());
            assert(out@ =~= mark + spec_menu_open(tree@[k as int].name, iconsv[k as int]));
        }
        let ghost opened = out@;
        let m = cat.entries.len();
        let mut t: usize = 0;
        while t < m
            invariant
                t <= m,
                m == cat.entries@.len(),
                cat == &tree.cats@[k as int],
                k < n,
                n == tree.cats@.len(),
                out@ == opened + spec_items_prefix(tree@[k as int].entries, t as int),
            decreases m - t,
        {
            proof {
                assert(tree@[k as int].entries[t as int] == cat.entries@[t as int]@);
            }
            append_item(&mut out, &cat.entries[t]);
            t = t + 1;
        }
        out.append("</menu>\n");
        proof {
            assert(tree@[k as int].entries.len() == m);
            assert(out@ =~= xml_header() + spec_cats_prefix(tree@, iconsv, k + 1 as int));
        }
        k = k + 1;
    }
    out.append("</openbox_menu>\n");
    proof {
        assert(out@ =~= spec_document(tree@, iconsv));
    }
    out
}

} // verus!
