use box_menu::assemble::{assemble, resolve_items, AppRecord, TaggedEntry};
use box_menu::config::{Config, ConfigCategory, OutputCategory};
use box_menu::menu::{MenuEntry, MenuTree};
use box_menu::xml::serialize;

fn entry(label: &str, command: &str, icon: Option<&str>) -> MenuEntry {
    MenuEntry {
        label: label.to_string(),
        command: command.to_string(),
        icon: icon.map(|p| p.to_string()),
    }
}

fn tagged(label: &str, command: &str, icon: Option<&str>, tags: &[&str]) -> TaggedEntry {
    TaggedEntry {
        entry: entry(label, command, icon),
        tags: tags.iter().map(|t| t.to_string()).collect(),
    }
}

fn category_of<'a>(tree: &'a MenuTree, name: &str) -> &'a box_menu::menu::MenuCategory {
    tree.cats
        .iter()
        .find(|c| c.name == name)
        .expect("category should be present")
}

#[test]
fn default_config_category_names() {
    let cfg = Config::default();
    let tree = cfg.empty_hash();
    let names: Vec<&str> = tree.cats.iter().map(|c| c.name.as_str()).collect();
    assert_eq!(
        names,
        vec![
            "Development",
            "Education",
            "Games",
            "Graphics",
            "Internet",
            "Multimedia",
            "Office",
            "Science",
            "Settings",
            "System",
            "Utility",
        ]
    );
    assert!(tree.cats.iter().all(|c| c.entries.is_empty()));
}

#[test]
fn config_category_default_sets_output() {
    let c = ConfigCategory::default("Games".to_string());
    assert_eq!(c.output.as_deref(), Some("Games"));
}

#[test]
fn output_for_maps_and_ignores() {
    let cfg = Config::default();
    assert_eq!(cfg.output_for(&"Audio".to_string()).as_deref(), Some("Multimedia"));
    assert_eq!(cfg.output_for(&"Game".to_string()).as_deref(), Some("Games"));
    assert_eq!(cfg.output_for(&"Office".to_string()).as_deref(), Some("Office"));
    assert_eq!(cfg.output_for(&"NotACategory".to_string()), None);
}

#[test]
fn category_fan_out() {
    let cfg = Config::default();
    let items = vec![tagged("App", "app", None, &["Audio", "Development"])];
    let tree = assemble(&items, &cfg);
    let multimedia = category_of(&tree, "Multimedia");
    assert_eq!(multimedia.entries.len(), 1);
    assert_eq!(multimedia.entries[0].label, "App");
    let development = category_of(&tree, "Development");
    assert_eq!(development.entries.len(), 1);
    assert_eq!(development.entries[0].label, "App");
}

#[test]
fn duplicate_entries_collapse() {
    let cfg = Config::default();
    let items = vec![
        tagged("Chess", "chess", Some("/icons/chess.png"), &["Game"]),
        tagged("Chess", "chess", Some("/icons/chess.png"), &["Game"]),
    ];
    let tree = assemble(&items, &cfg);
    let games = category_of(&tree, "Games");
    assert_eq!(games.entries.len(), 1);
}

#[test]
fn distinct_icons_stay_distinct() {
    let cfg = Config::default();
    let items = vec![
        tagged("Chess", "chess", Some("/icons/a.png"), &["Game"]),
        tagged("Chess", "chess", Some("/icons/b.png"), &["Game"]),
        tagged("Chess", "chess", None, &["Game"]),
    ];
    let tree = assemble(&items, &cfg);
    let games = category_of(&tree, "Games");
    assert_eq!(games.entries.len(), 3);
    assert_eq!(games.entries[0].icon, None);
    assert_eq!(games.entries[1].icon.as_deref(), Some("/icons/a.png"));
    assert_eq!(games.entries[2].icon.as_deref(), Some("/icons/b.png"));
}

#[test]
fn unmapped_category_contributes_nothing() {
    let cfg = Config::default();
    let items = vec![tagged("Ghost", "ghost", None, &["ThisCategoryDoesNotExist"])];
    let tree = assemble(&items, &cfg);
    assert!(tree.cats.iter().all(|c| c.entries.is_empty()));
}

#[test]
fn icon_fallback_is_derived_name() {
    let cfg = Config::default();
    assert_eq!(cfg.icon_for_category(&"Games".to_string()), "applications-games");
    assert_eq!(cfg.icon_for_category(&"Multimedia".to_string()), "applications-multimedia");
}

#[test]
fn icon_override_wins_over_derived_name() {
    let mut cfg = Config::default();
    cfg.output = Some(vec![
        (
            "Games".to_string(),
            OutputCategory { icon: Some("custom-games".to_string()) },
        ),
        ("Office".to_string(), OutputCategory { icon: None }),
    ]);
    assert_eq!(cfg.icon_for_category(&"Games".to_string()), "custom-games");
    assert_eq!(cfg.icon_for_category(&"Office".to_string()), "applications-office");
    assert_eq!(cfg.icon_for_category(&"Internet".to_string()), "applications-internet");
}

#[test]
fn categories_and_entries_are_sorted() {
    let cfg = Config::default();
    let items = vec![
        tagged("Zebra", "zebra", None, &["Game"]),
        tagged("Apple", "apple", None, &["Game", "Office"]),
        tagged("Mango", "mango", None, &["Utility"]),
    ];
    let tree = assemble(&items, &cfg);
    for pair in tree.cats.windows(2) {
        assert!(pair[0].name < pair[1].name);
    }
    let games = category_of(&tree, "Games");
    let labels: Vec<&str> = games.entries.iter().map(|e| e.label.as_str()).collect();
    assert_eq!(labels, vec!["Apple", "Zebra"]);
}

#[test]
fn command_is_emitted_verbatim_label_escaped() {
    let cfg = Config::default();
    let raw = "run --flag & more";
    let items = vec![tagged(
        &box_menu::escape::escape(raw),
        raw,
        None,
        &["Game"],
    )];
    let tree = assemble(&items, &cfg);
    let icons = vec![None; tree.cats.len()];
    let doc = serialize(&tree, &icons);
    assert!(doc.contains("<command>run --flag & more</command>"));
    assert!(doc.contains("label=\"run --flag &amp; more\""));
}

#[test]
fn serialized_document_shape() {
    let cfg = Config::default();
    let items = vec![tagged("Chess", "chess --fullscreen", None, &["Game"])];
    let tree = assemble(&items, &cfg);
    let icons = vec![None; tree.cats.len()];
    let doc = serialize(&tree, &icons);
    assert!(doc.starts_with("<?xml version=\"1.0\" encoding=\"UTF-8\"?>\n<openbox_menu "));
    assert!(doc.ends_with("</openbox_menu>\n"));
    assert!(doc.contains("<menu id=\"boxmenu-Games\" label=\"Games\" >"));
    assert!(doc.contains(
        "<item label=\"Chess\"><action name=\"Execute\"><command>chess --fullscreen</command></action></item>"
    ));
    // every configured output category is emitted, the empty ones included
    assert_eq!(doc.matches("<menu id=\"boxmenu-").count(), 11);
}

#[test]
fn serialized_item_icon_attribute() {
    let cfg = Config::default();
    let items = vec![tagged("Chess", "chess", Some("/ic/chess.png"), &["Game"])];
    let tree = assemble(&items, &cfg);
    let icons = vec![None; tree.cats.len()];
    let doc = serialize(&tree, &icons);
    assert!(doc.contains("<item label=\"Chess\" icon=\"/ic/chess.png\"><action name=\"Execute\">"));
}

#[test]
fn end_to_end_single_game_record() {
    let cfg = Config::default();
    let records = vec![AppRecord {
        categories: vec!["Game".to_string()],
        name: Some("Chess".to_string()),
        command: Some("chess --fullscreen".to_string()),
        icon: Some("chess-icon".to_string()),
    }];
    let items = resolve_items(&records, "hicolor");
    assert_eq!(items.len(), 1);
    assert_eq!(items[0].entry.label, "Chess");
    assert_eq!(items[0].entry.command, "chess --fullscreen");
    let tree = assemble(&items, &cfg);
    let games = category_of(&tree, "Games");
    assert_eq!(games.entries.len(), 1);
    assert_eq!(games.entries[0].label, "Chess");
    assert_eq!(games.entries[0].command, "chess --fullscreen");
    let icons = vec![None; tree.cats.len()];
    let doc = serialize(&tree, &icons);
    let item_count = doc.matches("<item ").count();
    assert_eq!(item_count, 1);
    assert!(doc.contains("<menu id=\"boxmenu-Games\" label=\"Games\" >"));
    match &games.entries[0].icon {
        Some(path) => assert!(doc.contains(&format!("<item label=\"Chess\" icon=\"{path}\">"))),
        None => assert!(doc.contains("<item label=\"Chess\"><action ")),
    }
}

#[test]
fn record_without_optional_fields() {
    let records = vec![AppRecord {
        categories: vec!["Utility".to_string()],
        name: None,
        command: None,
        icon: None,
    }];
    let items = resolve_items(&records, "hicolor");
    assert_eq!(items[0].entry.label, "");
    assert_eq!(items[0].entry.command, "");
    assert_eq!(items[0].entry.icon, None);
}

#[test]
fn render_menu_full_pipeline() {
    let cfg = Config::default();
    let records = vec![AppRecord {
        categories: vec!["Game".to_string(), "Audio".to_string()],
        name: Some("A<B".to_string()),
        command: Some("a-b --x".to_string()),
        icon: None,
    }];
    let doc = box_menu::pipeline::render_menu(&records, &cfg, "hicolor");
    assert!(doc.starts_with("<?xml version=\"1.0\" encoding=\"UTF-8\"?>\n"));
    assert!(doc.ends_with("</openbox_menu>\n"));
    // fan-out: the record shows up under Games and under Multimedia
    assert_eq!(doc.matches("<item label=\"A&lt;B\"").count(), 2);
    assert_eq!(doc.matches("<command>a-b --x</command>").count(), 2);
    // all eleven configured categories are emitted even when empty
    assert_eq!(doc.matches("<menu id=\"boxmenu-").count(), 11);
}

#[test]
fn theme_fallback_is_hicolor() {
    assert_eq!(box_menu::icons::theme_or_default(None), "hicolor");
    assert_eq!(
        box_menu::icons::theme_or_default(Some("Adwaita".to_string())),
        "Adwaita"
    );
}
