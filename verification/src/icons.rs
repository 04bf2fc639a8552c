//! Icon resolution: a theme selected once per run, and per-name lookups
//! against that theme through the icon-lookup service's cache.

use vstd::prelude::*;

use crate::config::Config;
use crate::menu::MenuTree;

verus! {

/// Relies on `freedesktop_icons::default_theme_gtk`: returns the host's
/// configured default icon theme, if one is declared. The result depends on
/// the host environment, so nothing more is promised of it.
#[verifier::external_body]
fn default_theme_name() -> (r: Option<String>) {
    freedesktop_icons::default_theme_gtk()
}

/// The theme a declared value selects: the declared theme when there is
/// one, else `hicolor`.
pub fn theme_or_default(declared: Option<String>) -> (r: String)
    ensures
        r@ == match declared {
            Some(t) => t@,
            None => "hicolor"@,
        },
{
    match declared {
        Some(t) => t,
        None => String::from_str("hicolor"),
    }
}

/// Selects the icon theme for the run: the host's declared default theme
/// when it has one, else `hicolor`. The choice depends on the host
/// environment; [`theme_or_default`] carries the verified fallback rule.
pub fn select_theme() -> (r: String) {
    theme_or_default(default_theme_name())
}

/// Relies on `freedesktop_icons::lookup`: resolves an icon name against the
/// given theme, consulting the on-disk lookup cache, and returns the found
/// path as a platform string. The result depends on what is on disk, so
/// nothing more is promised of it.
#[verifier::external_body]
pub(crate) fn lookup_icon(name: &str, theme: &str) -> (r: Option<String>) {
    freedesktop_icons::lookup(name).with_theme(theme).with_cache().find().map(
        |p| p.to_string_lossy().into_owned(),
    )
}

/// Resolves each category's icon for serialization: the category's
/// configured or derived icon name, looked up in the given theme. The
/// `k`-th result belongs to the tree's `k`-th category; a category whose
/// icon is not found gets `None` and so no icon attribute.
pub fn category_icons(tree: &MenuTree, cfg: &Config, theme: &str) -> (icons: Vec<Option<String>>)
    ensures
        icons@.len() == tree@.len(),
{
    let n = tree.cats.len();
    let mut icons: Vec<Option<String>> = Vec::new();
    let mut k: usize = 0;
    while k < n
        invariant
            k <= n,
            n == tree.cats@.len(),
            icons@.len() == k,
        decreases n - k,
    {
        let name = cfg.icon_for_category(&tree.cats[k].name);
        icons.push(lookup_icon(name.as_str(), theme));
        k = k + 1;
    }
    icons
}

} // verus!
