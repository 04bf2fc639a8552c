//! The category configuration: a mapping from source category names to
//! output category names, plus optional per-output-category icon overrides,
//! with a built-in default mapping.

use vstd::prelude::*;

use crate::menu::{tree_has_cat, tree_wf, MenuTree};

verus! {

/// What a source category maps to: the output category name, defaulting to
/// the source name itself when unset.
pub struct ConfigCategory {
    pub output: Option<String>,
}

impl View for ConfigCategory {
    type V = Option<Seq<char>>;

    open spec fn view(&self) -> Option<Seq<char>> {
        self.output.deep_view()
    }
}

impl ConfigCategory {
    /// A mapping that names its output category explicitly.
    pub fn default(output_name: String) -> (r: Self)
        ensures
            r@ == Some(output_name@),
    {
        Self { output: Some(output_name) }
    }
}

/// Per-output-category override: an optional custom icon name.
pub struct OutputCategory {
    pub icon: Option<String>,
}

impl View for OutputCategory {
    type V = Option<Seq<char>>;

    open spec fn view(&self) -> Option<Seq<char>> {
        self.icon.deep_view()
    }
}

/// The mathematical value of a [`Config`]: two association lists, each
/// carrying `(key, optional value)` pairs.
#[verifier::ext_equal]
pub struct CfgView {
    pub map: Seq<(Seq<char>, Option<Seq<char>>)>,
    pub icons: Seq<(Seq<char>, Option<Seq<char>>)>,
}

/// The user-overridable configuration: the source-to-output category map and
/// the per-output-category icon overrides.
pub struct Config {
    pub category_map: Vec<(String, ConfigCategory)>,
    pub output: Option<Vec<(String, OutputCategory)>>,
}

impl View for Config {
    type V = CfgView;

    open spec fn view(&self) -> CfgView {
        CfgView {
            map: Seq::new(
                self.category_map@.len(),
                |i: int| (self.category_map@[i].0@, self.category_map@[i].1@),
            ),
            icons: match self.output {
                Some(v) => Seq::new(v@.len(), |i: int| (v@[i].0@, v@[i].1@)),
                None => Seq::empty(),
            },
        }
    }
}

/// First-match lookup in an association list.
pub open spec fn assoc_lookup(
    m: Seq<(Seq<char>, Option<Seq<char>>)>,
    key: Seq<char>,
) -> Option<Option<Seq<char>>>
    decreases m.len(),
{
    if m.len() == 0 {
        None
    } else if m[0].0 == key {
        Some(m[0].1)
    } else {
        assoc_lookup(m.drop_first(), key)
    }
}

/// Skipping pairs whose keys do not match leaves the lookup unchanged.
proof fn lemma_assoc_skip(m: Seq<(Seq<char>, Option<Seq<char>>)>, key: Seq<char>, i: int)
    requires
        0 <= i <= m.len(),
        forall|k: int| 0 <= k < i ==> m[k].0 != key,
    ensures
        assoc_lookup(m, key) == assoc_lookup(m.skip(i), key),
    decreases i,
{
    if i > 0 {
        lemma_assoc_skip(m.drop_first(), key, i - 1);
        assert(m.drop_first().skip(i - 1) =~= m.skip(i));
    } else {
        assert(m.skip(0) =~= m);
    }
}

/// The output category a pair yields: its configured output name, or the
/// source name itself when none is configured.
pub open spec fn pair_output(p: (Seq<char>, Option<Seq<char>>)) -> Seq<char> {
    match p.1 {
        Some(o) => o,
        None => p.0,
    }
}

/// The output category a source category maps to, or `None` when the source
/// category is not configured.
pub open spec fn cfg_output_of(cfg: CfgView, tag: Seq<char>) -> Option<Seq<char>> {
    match assoc_lookup(cfg.map, tag) {
        Some(out) => Some(
            match out {
                Some(o) => o,
                None => tag,
            },
        ),
        None => None,
    }
}

/// Every output category name reachable from the source mapping.
pub open spec fn cfg_outputs(cfg: CfgView) -> Set<Seq<char>> {
    Set::new(
        |c: Seq<char>| exists|i: int| 0 <= i < cfg.map.len() && pair_output(#[trigger] cfg.map[i]) == c,
    )
}

/// A successful source-category lookup always lands in the reachable output
/// set.
pub proof fn lemma_output_of_in_outputs(cfg: CfgView, tag: Seq<char>)
    requires
        cfg_output_of(cfg, tag) is Some,
    ensures
        cfg_outputs(cfg).contains(cfg_output_of(cfg, tag)->0),
{
    lemma_assoc_found(cfg.map, tag);
    let i = choose|i: int|
        0 <= i < cfg.map.len() && cfg.map[i].0 == tag && cfg.map[i].1 == assoc_lookup(
            cfg.map,
            tag,
        )->0;
    assert(pair_output(cfg.map[i]) == cfg_output_of(cfg, tag)->0);
}

/// A successful lookup is witnessed by a pair of the list.
proof fn lemma_assoc_found(m: Seq<(Seq<char>, Option<Seq<char>>)>, key: Seq<char>)
    requires
        assoc_lookup(m, key) is Some,
    ensures
        exists|i: int|
            0 <= i < m.len() && (#[trigger] m[i]).0 == key && m[i].1 == assoc_lookup(m, key)->0,
    decreases m.len(),
{
    if m.len() > 0 {
        if m[0].0 == key {
            assert(0 <= 0 < m.len() && m[0].0 == key && m[0].1 == assoc_lookup(m, key)->0);
        } else {
            lemma_assoc_found(m.drop_first(), key);
            let i = choose|i: int|
                0 <= i < m.drop_first().len() && (#[trigger] m.drop_first()[i]).0 == key
                    && m.drop_first()[i].1 == assoc_lookup(m.drop_first(), key)->0;
            assert(m[i + 1] == m.drop_first()[i]);
        }
    }
}

/// The custom icon configured for an output category, if any.
pub open spec fn cfg_icon_override(cfg: CfgView, c: Seq<char>) -> Option<Seq<char>> {
    match assoc_lookup(cfg.icons, c) {
        Some(ov) => ov,
        None => None,
    }
}

/// The name that `str::to_lowercase` maps a string to; the result depends on
/// the characters alone.
pub uninterp spec fn lower_of(s: Seq<char>) -> Seq<char>;

/// Relies on `str::to_lowercase`: the result is a pure function of the
/// input characters; an empty input gives an empty result.
#[verifier::external_body]
fn to_lower(s: &str) -> (r: String)
    ensures
        r@ == lower_of(s@),
        s@.len() == 0 ==> r@.len() == 0,
{
    s.to_lowercase()
}

/// The icon name of an output category: the configured override when one is
/// present, else the derived default name.
pub open spec fn spec_icon_for_category(cfg: CfgView, c: Seq<char>) -> Seq<char> {
    match cfg_icon_override(cfg, c) {
        Some(ic) => ic,
        None => "applications-"@ + lower_of(c),
    }
}

/// The built-in default category map: the standard desktop categories
/// `AudioVideo`, `Audio`, `Video` map to `Multimedia`, `Game` to `Games`,
/// `Network` to `Internet`, and the rest to themselves unchanged.
pub open spec fn spec_default_map() -> Seq<(Seq<char>, Option<Seq<char>>)> {
    seq![
        ("AudioVideo"@, Some("Multimedia"@)),
        ("Audio"@, Some("Multimedia"@)),
        ("Video"@, Some("Multimedia"@)),
        ("Development"@, Some("Development"@)),
        ("Education"@, Some("Education"@)),
        ("Game"@, Some("Games"@)),
        ("Graphics"@, Some("Graphics"@)),
        ("Network"@, Some("Internet"@)),
        ("Office"@, Some("Office"@)),
        ("Science"@, Some("Science"@)),
        ("Settings"@, Some("Settings"@)),
        ("System"@, Some("System"@)),
        ("Utility"@, Some("Utility"@)),
    ]
}

impl Default for Config {
    /// The configuration used when no user configuration is supplied: the
    /// built-in category map and no icon overrides.
    fn default() -> (r: Self)
        ensures
            r@.map == spec_default_map(),
            r@.icons == Seq::<(Seq<char>, Option<Seq<char>>)>::empty(),
    {
        let mut m: Vec<(String, ConfigCategory)> = Vec::new();
        m.push(
            (String::from_str("AudioVideo"), ConfigCategory::default(String::from_str("Multimedia"))),
        );
        m.push(
            (String::from_str("Audio"), ConfigCategory::default(String::from_str("Multimedia"))),
        );
        m.push(
            (String::from_str("Video"), ConfigCategory::default(String::from_str("Multimedia"))),
        );
        m.push(
            (
                String::from_str("Development"),
                ConfigCategory::default(String::from_str("Development")),
            ),
        );
        m.push(
            (String::from_str("Education"), ConfigCategory::default(String::from_str("Education"))),
        );
        m.push((String::from_str("Game"), ConfigCategory::default(String::from_str("Games"))));
        m.push(
            (String::from_str("Graphics"), ConfigCategory::default(String::from_str("Graphics"))),
        );
        m.push(
            (String::from_str("Network"), ConfigCategory::default(String::from_str("Internet"))),
        );
        m.push((String::from_str("Office"), ConfigCategory::default(String::from_str("Office"))));
        m.push((String::from_str("Science"), ConfigCategory::default(String::from_str("Science"))));
        m.push(
            (String::from_str("Settings"), ConfigCategory::default(String::from_str("Settings"))),
        );
        m.push((String::from_str("System"), ConfigCategory::default(String::from_str("System"))));
        m.push((String::from_str("Utility"), ConfigCategory::default(String::from_str("Utility"))));
        let r = Config { category_map: m, output: None };
        proof {
            assert(r@.map =~= spec_default_map());
            assert(r@.icons =~= Seq::<(Seq<char>, Option<Seq<char>>)>::empty());
        }
        r
    }
}

/// The derived default icon name of an output category.
fn derived_icon(category: &String) -> (r: String)
    ensures
        r@ == "applications-"@ + lower_of(category@),
{
    let low = to_lower(category.as_str());
    let mut r = String::from_str("applications-");
    r.append(low.as_str());
    r
}

impl Config {
    /// The output category the given source category maps to, or `None`
    /// when the source category is not configured.
    pub fn output_for(&self, tag: &String) -> (r: Option<String>)
        ensures
            r.deep_view() == cfg_output_of(self@, tag@),
    {
        let n = self.category_map.len();
        let mut i: usize = 0;
        while i < n
            invariant
                i <= n,
                n == self.category_map@.len(),
                forall|k: int| 0 <= k < i ==> self@.map[k].0 != tag@,
            decreases n - i,
        {
            let pair = &self.category_map[i];
            if pair.0 == *tag {
                proof {
                    lemma_assoc_skip(self@.map, tag@, i as int);
                    assert(self@.map.skip(i as int)[0] == self@.map[i as int]);
                }
                match &pair.1.output {
                    Some(o) => {
                        return Some(o.clone());
                    },
                    None => {
                        return Some(tag.clone());
                    },
                }
            }
            i = i + 1;
        }
        proof {
            lemma_assoc_skip(self@.map, tag@, n as int);
            assert(self@.map.skip(n as int).len() == 0);
        }
        None
    }

    /// The icon name for an output category: the configured override when
    /// one is present, else `"applications-"` followed by the lowercased
    /// category name.
    pub fn icon_for_category(&self, category: &String) -> (r: String)
        ensures
            r@ == spec_icon_for_category(self@, category@),
    {
        if let Some(overrides) = &self.output {
            let n = overrides.len();
            let mut i: usize = 0;
            while i < n
                invariant
                    i <= n,
                    n == overrides@.len(),
                    self.output == Some(*overrides),
                    forall|k: int| 0 <= k < i ==> self@.icons[k].0 != category@,
                decreases n - i,
            {
                let pair = &overrides[i];
                if pair.0 == *category {
                    proof {
                        lemma_assoc_skip(self@.icons, category@, i as int);
                        assert(self@.icons.skip(i as int)[0] == self@.icons[i as int]);
                    }
                    return match &pair.1.icon {
                        Some(ic) => ic.clone(),
                        None => derived_icon(category),
                    };
                }
                i = i + 1;
            }
            proof {
                lemma_assoc_skip(self@.icons, category@, n as int);
                assert(self@.icons.skip(n as int).len() == 0);
            }
        }
        derived_icon(category)
    }

    /// The initial menu tree: one empty entry collection per output
    /// category reachable from the source mapping.
    pub fn empty_hash(&self) -> (tree: MenuTree)
        ensures
            tree_wf(tree@),
            forall|k: int| 0 <= k < tree@.len() ==> tree@[k].entries.len() == 0,
            forall|c: Seq<char>| tree_has_cat(tree@, c) <==> cfg_outputs(self@).contains(c),
    {
        let mut tree = MenuTree::new();
        let n = self.category_map.len();
        let mut i: usize = 0;
        while i < n
            invariant
                i <= n,
                n == self.category_map@.len(),
                tree_wf(tree@),
                forall|k: int| 0 <= k < tree@.len() ==> tree@[k].entries.len() == 0,
                forall|c: Seq<char>|
                    tree_has_cat(tree@, c) <==> exists|k: int|
                        0 <= k < i && pair_output(#[trigger] self@.map[k]) == c,
            decreases n - i,
        {
            let pair = &self.category_map[i];
            let out_name = match &pair.1.output {
                Some(o) => o.clone(),
                None => pair.0.clone(),
            };
            proof {
                assert(out_name@ == pair_output(self@.map[i as int]));
            }
            tree.add_category(out_name);
            i = i + 1;
        }
        tree
    }
}

} // verus!
