//! The assembled menu: entries, per-category entry collections with set
//! semantics, and the category tree, all kept in strictly ascending order so
//! that serialization is deterministic.

use vstd::prelude::*;

use crate::order::{lemma_lex_lt_asym, lemma_lex_lt_total, lemma_lex_lt_trans, lex_lt, str_lt};

verus! {

/// One clickable menu item: an escaped label, the raw command line, and an
/// optional resolved icon path.
pub struct MenuEntry {
    pub label: String,
    pub command: String,
    pub icon: Option<String>,
}

/// The mathematical value of a [`MenuEntry`]: the `(label, exec, icon)`
/// tuple that entries are compared and deduplicated by.
#[verifier::ext_equal]
pub struct EntryView {
    pub label: Seq<char>,
    pub command: Seq<char>,
    pub icon: Option<Seq<char>>,
}

impl View for MenuEntry {
    type V = EntryView;

    open spec fn view(&self) -> EntryView {
        EntryView { label: self.label@, command: self.command@, icon: self.icon.deep_view() }
    }
}

/// Order on optional icon paths: an absent icon sorts before any present
/// one, and present icons compare lexicographically.
pub open spec fn opt_lex_lt(a: Option<Seq<char>>, b: Option<Seq<char>>) -> bool {
    if a is None {
        b is Some
    } else if b is None {
        false
    } else {
        lex_lt(a->0, b->0)
    }
}

/// Strict order on entries: lexicographic on the `(label, exec, icon)`
/// tuple.
pub open spec fn entry_lt(a: EntryView, b: EntryView) -> bool {
    ||| lex_lt(a.label, b.label)
    ||| (a.label == b.label && lex_lt(a.command, b.command))
    ||| (a.label == b.label && a.command == b.command && opt_lex_lt(a.icon, b.icon))
}

/// `entry_lt` is a total order on entry values.
pub proof fn lemma_entry_lt_total(a: EntryView, b: EntryView)
    ensures
        entry_lt(a, b) || entry_lt(b, a) || a == b,
{
    lemma_lex_lt_total(a.label, b.label);
    lemma_lex_lt_total(a.command, b.command);
    if a.label == b.label && a.command == b.command && !opt_lex_lt(a.icon, b.icon) && !opt_lex_lt(
        b.icon,
        a.icon,
    ) {
        if a.icon is Some && b.icon is Some {
            lemma_lex_lt_total(a.icon->0, b.icon->0);
        }
        assert(a.icon == b.icon);
        assert(a =~= b);
    }
}

/// `entry_lt` is asymmetric, and in particular irreflexive.
pub proof fn lemma_entry_lt_asym(a: EntryView, b: EntryView)
    ensures
        entry_lt(a, b) ==> !entry_lt(b, a),
        entry_lt(a, b) ==> a != b,
{
    lemma_lex_lt_asym(a.label, b.label);
    lemma_lex_lt_asym(a.command, b.command);
    if a.icon is Some && b.icon is Some {
        lemma_lex_lt_asym(a.icon->0, b.icon->0);
    }
}

/// `entry_lt` is transitive.
pub proof fn lemma_entry_lt_trans(a: EntryView, b: EntryView, c: EntryView)
    requires
        entry_lt(a, b),
        entry_lt(b, c),
    ensures
        entry_lt(a, c),
{
    if lex_lt(a.label, b.label) && lex_lt(b.label, c.label) {
        lemma_lex_lt_trans(a.label, b.label, c.label);
    }
    if a.label == c.label && lex_lt(a.command, b.command) && lex_lt(b.command, c.command) {
        lemma_lex_lt_trans(a.command, b.command, c.command);
    }
    if a.label == c.label && a.command == c.command && a.icon is Some && b.icon is Some
        && c.icon is Some && lex_lt(a.icon->0, b.icon->0) && lex_lt(b.icon->0, c.icon->0) {
        lemma_lex_lt_trans(a.icon->0, b.icon->0, c.icon->0);
    }
}

impl MenuEntry {
    /// An owned copy with the same `(label, exec, icon)` value.
    pub fn duplicate(&self) -> (r: MenuEntry)
        ensures
            r@ == self@,
    {
        MenuEntry {
            label: self.label.clone(),
            command: self.command.clone(),
            icon: match &self.icon {
                Some(p) => Some(p.clone()),
                None => None,
            },
        }
    }
}

/// Decides `entry_lt` on two entries.
pub fn entry_lt_exec(a: &MenuEntry, b: &MenuEntry) -> (r: bool)
    ensures
        r == entry_lt(a@, b@),
{
    if str_lt(a.label.as_str(), b.label.as_str()) {
        true
    } else if str_lt(b.label.as_str(), a.label.as_str()) {
        proof {
            lemma_lex_lt_asym(b.label@, a.label@);
        }
        false
    } else {
        proof {
            lemma_lex_lt_total(a.label@, b.label@);
        }
        if str_lt(a.command.as_str(), b.command.as_str()) {
            true
        } else if str_lt(b.command.as_str(), a.command.as_str()) {
            proof {
                lemma_lex_lt_asym(b.command@, a.command@);
            }
            false
        } else {
            proof {
                lemma_lex_lt_total(a.command@, b.command@);
            }
            match (&a.icon, &b.icon) {
                (Option::None, Option::Some(_)) => true,
                (Option::Some(x), Option::Some(y)) => str_lt(x.as_str(), y.as_str()),
                _ => false,
            }
        }
    }
}

/// Decides whether two entries carry the same `(label, exec, icon)` value.
pub fn entry_eq_exec(a: &MenuEntry, b: &MenuEntry) -> (r: bool)
    ensures
        r == (a@ == b@),
{
    let same_label = a.label == b.label;
    let same_exec = a.command == b.command;
    let same_icon = match (&a.icon, &b.icon) {
        (Option::None, Option::None) => true,
        (Option::Some(x), Option::Some(y)) => *x == *y,
        _ => false,
    };
    let r = same_label && same_exec && same_icon;
    proof {
        if r {
            assert(a@ =~= b@);
        }
    }
    r
}

/// The entry values of a sequence of entries.
pub open spec fn entry_views(es: Seq<MenuEntry>) -> Seq<EntryView> {
    Seq::new(es.len(), |i: int| es[i]@)
}

/// The entries of one category are kept strictly ascending: sorted and free
/// of duplicates.
pub open spec fn entries_sorted(es: Seq<EntryView>) -> bool {
    forall|i: int, j: int| 0 <= i < j < es.len() ==> entry_lt(es[i], es[j])
}

/// Inserts an entry into a strictly ascending entry vector, keeping it
/// strictly ascending; an entry already present (by value) is not added
/// again.
fn insert_entry(es: &mut Vec<MenuEntry>, e: MenuEntry)
    requires
        entries_sorted(entry_views(old(es)@)),
    ensures
        entries_sorted(entry_views(final(es)@)),
        entry_views(final(es)@).to_set() == entry_views(old(es)@).to_set().insert(e@),
{
    let n = es.len();
    let mut pos: usize = 0;
    while pos < n && entry_lt_exec(&es[pos], &e)
        invariant
            pos <= n,
            n == es.len(),
            entries_sorted(entry_views(es@)),
            es@ == old(es)@,
            forall|k: int| 0 <= k < pos ==> entry_lt(entry_views(es@)[k], e@),
        decreases n - pos,
    {
        pos = pos + 1;
    }
    let ghost old_views = entry_views(es@);
    if pos < n && entry_eq_exec(&es[pos], &e) {
        proof {
            assert(old_views[pos as int] == e@);
            assert(old_views.contains(e@));
            assert(old_views.to_set() =~= old_views.to_set().insert(e@));
        }
    } else {
        proof {
            if pos < n {
                lemma_entry_lt_total(old_views[pos as int], e@);
                assert(entry_lt(e@, old_views[pos as int]));
            }
        }
        es.insert(pos, e);
        proof {
            let new_views = entry_views(es@);
            assert(es@ == old(es)@.insert(pos as int, e));
            assert forall|k: int| 0 <= k < new_views.len() implies new_views[k] == (if k
                < pos as int {
                old_views[k]
            } else if k == pos as int {
                e@
            } else {
                old_views[k - 1]
            }) by {}
            assert forall|i: int, j: int| 0 <= i < j < new_views.len() implies entry_lt(
                new_views[i],
                new_views[j],
            ) by {
                if j < pos as int {
                } else if i < pos as int && j == pos as int {
                    assert(entry_lt(old_views[i], e@));
                } else if i < pos as int && j > pos as int {
                    assert(entry_lt(old_views[i], old_views[j - 1]));
                } else if i == pos as int {
                    if j - 1 == pos as int {
                        assert(entry_lt(e@, old_views[pos as int]));
                    } else {
                        lemma_entry_lt_trans(e@, old_views[pos as int], old_views[j - 1]);
                    }
                } else {
                }
            }
            assert forall|x: EntryView| new_views.to_set().contains(x) implies old_views.to_set()
                .insert(e@).contains(x) by {
                let k = choose|k: int| 0 <= k < new_views.len() && new_views[k] == x;
                if k < pos as int {
                    assert(old_views[k] == x);
                } else if k > pos as int {
                    assert(old_views[k - 1] == x);
                }
            }
            assert forall|x: EntryView| old_views.to_set().insert(e@).contains(
                x,
            ) implies new_views.to_set().contains(x) by {
                if x == e@ {
                    assert(new_views[pos as int] == x);
                } else {
                    let k = choose|k: int| 0 <= k < old_views.len() && old_views[k] == x;
                    if k < pos as int {
                        assert(new_views[k] == x);
                    } else {
                        assert(new_views[k + 1] == x);
                    }
                }
            }
            assert(entry_views(es@).to_set() =~= old_views.to_set().insert(e@));
        }
    }
}

/// One output category with its name and its collected entries.
pub struct MenuCategory {
    pub name: String,
    pub entries: Vec<MenuEntry>,
}

/// The mathematical value of a [`MenuCategory`].
#[verifier::ext_equal]
pub struct CatView {
    pub name: Seq<char>,
    pub entries: Seq<EntryView>,
}

impl View for MenuCategory {
    type V = CatView;

    open spec fn view(&self) -> CatView {
        CatView { name: self.name@, entries: entry_views(self.entries@) }
    }
}

/// The assembled menu: output categories, each with its entry collection.
pub struct MenuTree {
    pub cats: Vec<MenuCategory>,
}

impl View for MenuTree {
    type V = Seq<CatView>;

    open spec fn view(&self) -> Seq<CatView> {
        Seq::new(self.cats@.len(), |i: int| self.cats@[i]@)
    }
}

/// The category names, in the order the tree holds them.
pub open spec fn cat_names(tv: Seq<CatView>) -> Seq<Seq<char>> {
    Seq::new(tv.len(), |i: int| tv[i].name)
}

/// Well-formedness of the assembled menu: category names strictly ascending
/// (hence unique), and each category's entries strictly ascending (hence
/// deduplicated).
pub open spec fn tree_wf(tv: Seq<CatView>) -> bool {
    &&& forall|i: int, j: int| 0 <= i < j < tv.len() ==> lex_lt(tv[i].name, tv[j].name)
    &&& forall|k: int| 0 <= k < tv.len() ==> entries_sorted(tv[k].entries)
}

/// Whether the tree holds a category of the given name.
pub open spec fn tree_has_cat(tv: Seq<CatView>, c: Seq<char>) -> bool {
    exists|k: int| 0 <= k < tv.len() && tv[k].name == c
}

/// The set of entry values collected under the given category name.
pub open spec fn tree_entries(tv: Seq<CatView>, c: Seq<char>) -> Set<EntryView> {
    Set::new(
        |e: EntryView|
            exists|k: int, m: int|
                0 <= k < tv.len() && tv[k].name == c && 0 <= m < tv[k].entries.len()
                    && tv[k].entries[m] == e,
    )
}

/// The tree read as a mapping from category name to entry set; this is the
/// value the assembler's contract speaks of.
pub open spec fn tree_as_map(tv: Seq<CatView>) -> Map<Seq<char>, Set<EntryView>> {
    Map::new(|c: Seq<char>| tree_has_cat(tv, c), |c: Seq<char>| tree_entries(tv, c))
}

/// In a well-formed tree the category names are pairwise distinct.
pub proof fn lemma_wf_names_distinct(tv: Seq<CatView>)
    requires
        tree_wf(tv),
    ensures
        forall|i: int, j: int|
            0 <= i < tv.len() && 0 <= j < tv.len() && i != j ==> tv[i].name != tv[j].name,
{
    assert forall|i: int, j: int|
        0 <= i < tv.len() && 0 <= j < tv.len() && i != j implies tv[i].name != tv[j].name by {
        if i < j {
            lemma_lex_lt_asym(tv[i].name, tv[j].name);
        } else {
            lemma_lex_lt_asym(tv[j].name, tv[i].name);
        }
    }
}

/// When a category name occurs at exactly one index, the entries collected
/// under it are exactly that category's entries.
proof fn lemma_tree_entries_at(tv: Seq<CatView>, k: int)
    requires
        0 <= k < tv.len(),
        forall|i: int| 0 <= i < tv.len() && i != k ==> tv[i].name != tv[k].name,
    ensures
        tree_entries(tv, tv[k].name) == tv[k].entries.to_set(),
{
    let c = tv[k].name;
    assert forall|e: EntryView| tree_entries(tv, c).contains(e) implies tv[k].entries.to_set()
        .contains(e) by {
        let (k2, m) = choose|k2: int, m: int|
            0 <= k2 < tv.len() && tv[k2].name == c && 0 <= m < tv[k2].entries.len()
                && tv[k2].entries[m] == e;
        assert(k2 == k);
        assert(tv[k].entries.contains(e));
    }
    assert forall|e: EntryView| tv[k].entries.to_set().contains(e) implies tree_entries(
        tv,
        c,
    ).contains(e) by {
        let m = choose|m: int| 0 <= m < tv[k].entries.len() && tv[k].entries[m] == e;
        assert(0 <= k < tv.len() && tv[k].name == c && 0 <= m < tv[k].entries.len()
            && tv[k].entries[m] == e);
    }
    assert(tree_entries(tv, c) =~= tv[k].entries.to_set());
}

/// Deduplication: a well-formed tree never holds the same entry value
/// twice within one category; two records that resolve to the same
/// `(label, command, icon)` value thus yield a single menu item.
pub proof fn lemma_dedup(tv: Seq<CatView>, k: int, m1: int, m2: int)
    requires
        tree_wf(tv),
        0 <= k < tv.len(),
        0 <= m1 < m2 < tv[k].entries.len(),
    ensures
        tv[k].entries[m1] != tv[k].entries[m2],
{
    assert(entry_lt(tv[k].entries[m1], tv[k].entries[m2]));
    lemma_entry_lt_asym(tv[k].entries[m1], tv[k].entries[m2]);
}

/// Two strictly ascending sequences (under any strict total order) with the
/// same members are the same sequence.
proof fn lemma_sorted_same_elems<T>(lt: spec_fn(T, T) -> bool, s1: Seq<T>, s2: Seq<T>)
    requires
        forall|a: T, b: T| #[trigger] lt(a, b) ==> !lt(b, a) && a != b,
        forall|a: T, b: T| #[trigger] lt(a, b) || #[trigger] lt(b, a) || a == b,
        forall|i: int, j: int| 0 <= i < j < s1.len() ==> lt(s1[i], s1[j]),
        forall|i: int, j: int| 0 <= i < j < s2.len() ==> lt(s2[i], s2[j]),
        forall|x: T| s1.contains(x) <==> s2.contains(x),
    ensures
        s1 == s2,
    decreases s1.len(),
{
    if s1.len() == 0 {
        if s2.len() > 0 {
            assert(s2.contains(s2[0]));
            assert(s1.contains(s2[0]));
        }
        assert(s1 =~= s2);
    } else {
        assert(s1.contains(s1[0]));
        assert(s2.contains(s1[0]));
        if s2.len() == 0 {
            assert(false);
        }
        assert(s2.contains(s2[0]));
        assert(s1.contains(s2[0]));
        let k1 = choose|k: int| 0 <= k < s1.len() && s1[k] == s2[0];
        let k2 = choose|k: int| 0 <= k < s2.len() && s2[k] == s1[0];
        if lt(s1[0], s2[0]) {
            if k2 > 0 {
                assert(lt(s2[0], s2[k2]));
            }
            assert(false);
        }
        if lt(s2[0], s1[0]) {
            if k1 > 0 {
                assert(lt(s1[0], s1[k1]));
            }
            assert(false);
        }
        assert(s1[0] == s2[0]);
        let t1 = s1.drop_first();
        let t2 = s2.drop_first();
        assert forall|x: T| t1.contains(x) <==> t2.contains(x) by {
            if t1.contains(x) {
                let k = choose|k: int| 0 <= k < t1.len() && t1[k] == x;
                assert(s1[k + 1] == x);
                assert(s1.contains(x));
                assert(lt(s1[0], s1[k + 1]));
                assert(s2.contains(x));
                let k3 = choose|k3: int| 0 <= k3 < s2.len() && s2[k3] == x;
                assert(k3 != 0);
                assert(t2[k3 - 1] == x);
                assert(t2.contains(x));
            }
            if t2.contains(x) {
                let k = choose|k: int| 0 <= k < t2.len() && t2[k] == x;
                assert(s2[k + 1] == x);
                assert(s2.contains(x));
                assert(lt(s2[0], s2[k + 1]));
                assert(s1.contains(x));
                let k3 = choose|k3: int| 0 <= k3 < s1.len() && s1[k3] == x;
                assert(k3 != 0);
                assert(t1[k3 - 1] == x);
                assert(t1.contains(x));
            }
        }
        lemma_sorted_same_elems(lt, t1, t2);
        assert forall|i: int| 0 <= i < s1.len() implies s1[i] == s2[i] by {
            if i > 0 {
                assert(t1[i - 1] == t2[i - 1]);
            }
        }
        assert(s1 =~= s2);
    }
}

/// Determinism: the assembled value determines the tree. Two well-formed
/// trees that agree as maps from category name to entry set are equal, so
/// a fixed input set serializes to the same document on every run.
pub proof fn lemma_tree_determined(tv1: Seq<CatView>, tv2: Seq<CatView>)
    requires
        tree_wf(tv1),
        tree_wf(tv2),
        tree_as_map(tv1) == tree_as_map(tv2),
    ensures
        tv1 == tv2,
{
    let n1 = cat_names(tv1);
    let n2 = cat_names(tv2);
    assert forall|c: Seq<char>| n1.contains(c) <==> n2.contains(c) by {
        assert(tree_as_map(tv1).dom() == tree_as_map(tv2).dom());
        assert(tree_as_map(tv1).dom().contains(c) <==> tree_has_cat(tv1, c));
        assert(tree_as_map(tv2).dom().contains(c) <==> tree_has_cat(tv2, c));
        if n1.contains(c) {
            let k = choose|k: int| 0 <= k < n1.len() && n1[k] == c;
            assert(tv1[k].name == c);
            assert(tree_has_cat(tv2, c));
            let k2 = choose|k2: int| 0 <= k2 < tv2.len() && tv2[k2].name == c;
            assert(n2[k2] == c);
            assert(n2.contains(c));
        }
        if n2.contains(c) {
            let k = choose|k: int| 0 <= k < n2.len() && n2[k] == c;
            assert(tv2[k].name == c);
            assert(tree_has_cat(tv1, c));
            let k2 = choose|k2: int| 0 <= k2 < tv1.len() && tv1[k2].name == c;
            assert(n1[k2] == c);
            assert(n1.contains(c));
        }
    }
    assert forall|a: Seq<char>, b: Seq<char>| #[trigger] lex_lt(a, b) implies !lex_lt(b, a) && a
        != b by {
        lemma_lex_lt_asym(a, b);
    }
    assert forall|a: Seq<char>, b: Seq<char>|
        #[trigger] lex_lt(a, b) || #[trigger] lex_lt(b, a) || a == b by {
        lemma_lex_lt_total(a, b);
    }
    lemma_sorted_same_elems(|a: Seq<char>, b: Seq<char>| lex_lt(a, b), n1, n2);
    assert(tv1.len() == tv2.len());
    lemma_wf_names_distinct(tv1);
    lemma_wf_names_distinct(tv2);
    assert forall|a: EntryView, b: EntryView| #[trigger] entry_lt(a, b) implies !entry_lt(b, a)
        && a != b by {
        lemma_entry_lt_asym(a, b);
    }
    assert forall|a: EntryView, b: EntryView|
        #[trigger] entry_lt(a, b) || #[trigger] entry_lt(b, a) || a == b by {
        lemma_entry_lt_total(a, b);
    }
    assert forall|k: int| 0 <= k < tv1.len() implies tv1[k] == tv2[k] by {
        assert(n1[k] == n2[k]);
        assert(tv1[k].name == tv2[k].name);
        lemma_tree_entries_at(tv1, k);
        lemma_tree_entries_at(tv2, k);
        assert(tree_as_map(tv1)[tv1[k].name] == tree_entries(tv1, tv1[k].name));
        assert(tree_has_cat(tv1, tv1[k].name));
        assert(tree_has_cat(tv2, tv2[k].name));
        assert(tree_as_map(tv2)[tv2[k].name] == tree_entries(tv2, tv2[k].name));
        assert(tv1[k].entries.to_set() == tv2[k].entries.to_set());
        assert forall|x: EntryView| tv1[k].entries.contains(x) <==> tv2[k].entries.contains(x) by {
            assert(tv1[k].entries.to_set().contains(x) == tv1[k].entries.contains(x));
            assert(tv2[k].entries.to_set().contains(x) == tv2[k].entries.contains(x));
        }
        lemma_sorted_same_elems(
            |a: EntryView, b: EntryView| entry_lt(a, b),
            tv1[k].entries,
            tv2[k].entries,
        );
        assert(tv1[k] =~= tv2[k]);
    }
    assert(tv1 =~= tv2);
}

impl MenuTree {
    /// The empty menu.
    pub fn new() -> (r: MenuTree)
        ensures
            r@ =~= Seq::<CatView>::empty(),
            tree_wf(r@),
    {
        MenuTree { cats: Vec::new() }
    }

    /// The index of the category with the given name.
    fn find_cat(&self, name: &String) -> (k: usize)
        requires
            tree_has_cat(self@, name@),
        ensures
            k < self@.len(),
            self@[k as int].name == name@,
    {
        let n = self.cats.len();
        let mut i: usize = 0;
        while i < n
            invariant
                i <= n,
                n == self.cats@.len(),
                tree_has_cat(self@, name@),
                forall|k: int| 0 <= k < i ==> self@[k].name != name@,
            decreases n - i,
        {
            if self.cats[i].name == *name {
                return i;
            }
            i = i + 1;
        }
        proof {
            assert(false);
        }
        vstd::pervasive::unreached()
    }

    /// Adds an empty category of the given name, keeping the names strictly
    /// ascending; a name already present is left as it is. Used only while
    /// the tree is still empty of entries.
    pub fn add_category(&mut self, name: String)
        requires
            tree_wf(old(self)@),
            forall|k: int| 0 <= k < old(self)@.len() ==> old(self)@[k].entries.len() == 0,
        ensures
            tree_wf(final(self)@),
            forall|k: int| 0 <= k < final(self)@.len() ==> final(self)@[k].entries.len() == 0,
            forall|c: Seq<char>|
                tree_has_cat(final(self)@, c) <==> (tree_has_cat(old(self)@, c) || c == name@),
    {
        let n = self.cats.len();
        let mut pos: usize = 0;
        while pos < n && str_lt(self.cats[pos].name.as_str(), name.as_str())
            invariant
                pos <= n,
                n == self.cats@.len(),
                self@ == old(self)@,
                forall|k: int| 0 <= k < pos ==> lex_lt(self@[k].name, name@),
            decreases n - pos,
        {
            pos = pos + 1;
        }
        if pos < n && self.cats[pos].name == name {
            proof {
                assert(self@[pos as int].name == name@);
                assert(tree_has_cat(self@, name@));
            }
        } else {
            proof {
                if pos < n {
                    lemma_lex_lt_total(self@[pos as int].name, name@);
                    assert(lex_lt(name@, self@[pos as int].name));
                }
            }
            let ghost oldv = self@;
            self.cats.insert(pos, MenuCategory { name, entries: Vec::new() });
            proof {
                let newv = self@;
                assert forall|k: int| 0 <= k < newv.len() implies newv[k] == (if k < pos as int {
                    oldv[k]
                } else if k == pos as int {
                    (CatView { name: newv[pos as int].name, entries: Seq::<EntryView>::empty() })
                } else {
                    oldv[k - 1]
                }) by {
                    if k == pos as int {
                        assert(newv[k].entries =~= Seq::<EntryView>::empty());
                        assert(newv[k] =~= CatView {
                            name: newv[pos as int].name,
                            entries: Seq::<EntryView>::empty(),
                        });
                    }
                }
                assert forall|i: int, j: int| 0 <= i < j < newv.len() implies lex_lt(
                    newv[i].name,
                    newv[j].name,
                ) by {
                    if j < pos as int {
                    } else if i < pos as int && j == pos as int {
                    } else if i < pos as int && j > pos as int {
                        assert(lex_lt(oldv[i].name, oldv[j - 1].name));
                    } else if i == pos as int {
                        if j - 1 == pos as int {
                        } else {
                            lemma_lex_lt_trans(
                                newv[pos as int].name,
                                oldv[pos as int].name,
                                oldv[j - 1].name,
                            );
                        }
                    } else {
                    }
                }
                assert forall|c: Seq<char>| tree_has_cat(newv, c) implies (tree_has_cat(oldv, c)
                    || c == newv[pos as int].name) by {
                    let k = choose|k: int| 0 <= k < newv.len() && newv[k].name == c;
                    if k < pos as int {
                        assert(oldv[k].name == c);
                    } else if k > pos as int {
                        assert(oldv[k - 1].name == c);
                    }
                }
                assert forall|c: Seq<char>| (tree_has_cat(oldv, c) || c
                    == newv[pos as int].name) implies tree_has_cat(newv, c) by {
                    if c == newv[pos as int].name {
                        assert(newv[pos as int].name == c);
                    } else {
                        let k = choose|k: int| 0 <= k < oldv.len() && oldv[k].name == c;
                        if k < pos as int {
                            assert(newv[k].name == c);
                        } else {
                            assert(newv[k + 1].name == c);
                        }
                    }
                }
            }
        }
    }

    /// Inserts an entry into the category of the given name: the category's
    /// entry set grows by the entry's value (set semantics), every other
    /// category is untouched, and the category names do not change.
    pub fn insert(&mut self, name: &String, e: MenuEntry)
        requires
            tree_wf(old(self)@),
            tree_has_cat(old(self)@, name@),
        ensures
            tree_wf(final(self)@),
            cat_names(final(self)@) == cat_names(old(self)@),
            tree_as_map(final(self)@) == tree_as_map(old(self)@).insert(
                name@,
                tree_entries(old(self)@, name@).insert(e@),
            ),
    {
        let k = self.find_cat(name);
        let ghost oldv = self@;
        let mut cat = self.cats.remove(k);
        insert_entry(&mut cat.entries, e);
        self.cats.insert(k, cat);
        proof {
            let newv = self@;
            assert forall|i: int| 0 <= i < newv.len() implies newv[i] == (if i == k as int {
                (CatView { name: oldv[k as int].name, entries: newv[k as int].entries })
            } else {
                oldv[i]
            }) by {}
            assert(newv[k as int].entries.to_set() == oldv[k as int].entries.to_set().insert(e@));
            lemma_wf_names_distinct(oldv);
            assert(tree_wf(newv));
            assert(cat_names(newv) =~= cat_names(oldv));
            lemma_tree_entries_at(oldv, k as int);
            lemma_tree_entries_at(newv, k as int);
            assert forall|c: Seq<char>| tree_has_cat(newv, c) <==> tree_has_cat(oldv, c) by {
                if tree_has_cat(newv, c) {
                    let k2 = choose|k2: int| 0 <= k2 < newv.len() && newv[k2].name == c;
                    assert(oldv[k2].name == c);
                }
                if tree_has_cat(oldv, c) {
                    let k2 = choose|k2: int| 0 <= k2 < oldv.len() && oldv[k2].name == c;
                    assert(newv[k2].name == c);
                }
            }
            assert forall|c: Seq<char>| tree_has_cat(newv, c) && c != name@ implies tree_entries(
                newv,
                c,
            ) == tree_entries(oldv, c) by {
                assert forall|e2: EntryView| tree_entries(newv, c).contains(e2) implies tree_entries(
                    oldv,
                    c,
                ).contains(e2) by {
                    let (k2, m) = choose|k2: int, m: int|
                        0 <= k2 < newv.len() && newv[k2].name == c && 0 <= m
                            < newv[k2].entries.len() && newv[k2].entries[m] == e2;
                    assert(k2 != k as int);
                    assert(oldv[k2].entries[m] == e2);
                }
                assert forall|e2: EntryView| tree_entries(oldv, c).contains(e2) implies tree_entries(
                    newv,
                    c,
                ).contains(e2) by {
                    let (k2, m) = choose|k2: int, m: int|
                        0 <= k2 < oldv.len() && oldv[k2].name == c && 0 <= m
                            < oldv[k2].entries.len() && oldv[k2].entries[m] == e2;
                    assert(k2 != k as int);
                    assert(newv[k2].entries[m] == e2);
                }
                assert(tree_entries(newv, c) =~= tree_entries(oldv, c));
            }
            assert(tree_entries(newv, name@) =~= tree_entries(oldv, name@).insert(e@));
            assert(tree_as_map(newv) =~~= tree_as_map(oldv).insert(
                name@,
                tree_entries(oldv, name@).insert(e@),
            ));
        }
    }
}

} // verus!
