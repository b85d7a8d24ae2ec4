use safeclean::projects::ProjectType;
use safeclean::scanner::FoundDir;
use safeclean::selector::group_by_type;
use safeclean::selector::CursorPosition;
use safeclean::selector::Group;
use safeclean::selector::GroupedItem;
use safeclean::selector::GroupedSelector;
use safeclean::selector::SelectorKey;
use safeclean::selector::SelectorStep;

fn entry(name: &str, pt: ProjectType, size: u64) -> FoundDir {
    FoundDir { path: vec![name.to_string()], project_type: pt, size_bytes: size }
}

fn sample() -> Vec<FoundDir> {
    vec![
        entry("big-target", ProjectType::Rust, 900),
        entry("small-target", ProjectType::Rust, 100),
        entry("node_modules", ProjectType::Node, 500),
    ]
}

fn item(selected: bool, size: u64) -> GroupedItem {
    GroupedItem { dir: entry("x", ProjectType::Rust, size), selected }
}

#[test]
fn construction_defaults() {
    let sel = GroupedSelector::new(sample());
    // two groups plus three items, nothing collapsed
    assert_eq!(sel.total_lines(), 5);
    assert_eq!(sel.cursor_position(), CursorPosition::GroupHeader(0));
}

#[test]
fn confirm_without_keys_returns_everything() {
    let sel = GroupedSelector::new(sample());
    let out = sel.confirm();
    assert_eq!(out.len(), 3);
    // fixed category order: Rust before Node, incoming order within a group
    assert_eq!(out[0].path, vec!["big-target".to_string()]);
    assert_eq!(out[1].path, vec!["small-target".to_string()]);
    assert_eq!(out[2].path, vec!["node_modules".to_string()]);
}

#[test]
fn cancel_discards_all_toggles() {
    let mut sel = GroupedSelector::new(sample());
    sel.step(SelectorKey::Down);
    sel.step(SelectorKey::Toggle);
    match sel.step(SelectorKey::Cancel) {
        SelectorStep::Finished(v) => assert!(v.is_empty()),
        SelectorStep::Continue => panic!("cancel must finish the session"),
    }
}

#[test]
fn toggling_one_item_excludes_it() {
    let mut sel = GroupedSelector::new(sample());
    sel.move_down();
    assert_eq!(sel.cursor_position(), CursorPosition::Item(0, 0));
    sel.toggle_current();
    let out = sel.confirm();
    assert_eq!(out.len(), 2);
    assert_eq!(out[0].path, vec!["small-target".to_string()]);
    assert_eq!(out[1].path, vec!["node_modules".to_string()]);
}

#[test]
fn group_toggle_flips_whole_group_coherently() {
    let mut sel = GroupedSelector::new(sample());
    // on the Rust header: all selected, so one toggle deselects both items
    sel.toggle_current();
    let after_one = sel.selected();
    assert_eq!(after_one.len(), 1);
    assert_eq!(after_one[0].path, vec!["node_modules".to_string()]);
    // toggling again reselects everything
    sel.toggle_current();
    assert_eq!(sel.confirm().len(), 3);
}

#[test]
fn mixed_group_toggle_selects_all_first() {
    let mut sel = GroupedSelector::new(sample());
    sel.move_down();
    sel.toggle_current();
    // group is now mixed; a header toggle must select everything in it
    sel.move_up();
    sel.toggle_current();
    assert_eq!(sel.confirm().len(), 3);
}

#[test]
fn collapse_hides_lines_but_keeps_ticks() {
    let mut sel = GroupedSelector::new(sample());
    assert_eq!(sel.total_lines(), 5);
    sel.toggle_collapse();
    // the Rust group's two item lines are gone
    assert_eq!(sel.total_lines(), 3);
    sel.toggle_collapse();
    assert_eq!(sel.total_lines(), 5);
    sel.toggle_collapse();
    let out = sel.confirm();
    assert_eq!(out.len(), 3);
}

#[test]
fn collapse_on_item_line_does_nothing() {
    let mut sel = GroupedSelector::new(sample());
    sel.move_down();
    sel.toggle_collapse();
    assert_eq!(sel.total_lines(), 5);
}

#[test]
fn cursor_clamps_at_both_ends() {
    let mut sel = GroupedSelector::new(sample());
    sel.move_up();
    assert_eq!(sel.cursor_position(), CursorPosition::GroupHeader(0));
    for _ in 0..20 {
        sel.move_down();
    }
    // last visible line: the Node group's single item
    assert_eq!(sel.cursor_position(), CursorPosition::Item(1, 0));
}

#[test]
fn navigation_walks_headers_and_items() {
    let mut sel = GroupedSelector::new(sample());
    assert_eq!(sel.cursor_position(), CursorPosition::GroupHeader(0));
    sel.move_down();
    assert_eq!(sel.cursor_position(), CursorPosition::Item(0, 0));
    sel.move_down();
    assert_eq!(sel.cursor_position(), CursorPosition::Item(0, 1));
    sel.move_down();
    assert_eq!(sel.cursor_position(), CursorPosition::GroupHeader(1));
    sel.move_down();
    assert_eq!(sel.cursor_position(), CursorPosition::Item(1, 0));
}

#[test]
fn collapsed_group_is_skipped_by_navigation() {
    let mut sel = GroupedSelector::new(sample());
    sel.toggle_collapse();
    sel.move_down();
    // the Rust items are hidden, so the next line is the Node header
    assert_eq!(sel.cursor_position(), CursorPosition::GroupHeader(1));
}

#[test]
fn confirm_via_step_returns_ticked_entries() {
    let mut sel = GroupedSelector::new(sample());
    sel.step(SelectorKey::Down);
    sel.step(SelectorKey::Toggle);
    match sel.step(SelectorKey::Confirm) {
        SelectorStep::Finished(v) => {
            assert_eq!(v.len(), 2);
        },
        SelectorStep::Continue => panic!("confirm must finish the session"),
    }
}

#[test]
fn group_state_queries() {
    let g = Group {
        project_type: ProjectType::Rust,
        items: vec![item(true, 10), item(true, 20)],
        collapsed: false,
    };
    assert!(g.all_selected());
    assert!(!g.none_selected());
    assert_eq!(g.total_size(), 30);

    let mixed = Group {
        project_type: ProjectType::Rust,
        items: vec![item(true, 1), item(false, 2)],
        collapsed: false,
    };
    assert!(!mixed.all_selected());
    assert!(!mixed.none_selected());
}

#[test]
fn toggle_all_is_a_single_coherent_flip() {
    let mut g = Group {
        project_type: ProjectType::Rust,
        items: vec![item(true, 1), item(false, 2)],
        collapsed: false,
    };
    // mixed: toggling selects everything
    g.toggle_all();
    assert!(g.all_selected());
    // all selected: toggling deselects everything
    g.toggle_all();
    assert!(g.none_selected());
    // and toggling once more restores the fully selected state
    g.toggle_all();
    assert!(g.all_selected());
}

#[test]
fn grouping_follows_display_order() {
    let dirs = vec![
        entry("node_modules", ProjectType::Node, 500),
        entry("big-target", ProjectType::Rust, 900),
        entry("pycache", ProjectType::Python, 50),
        entry("small-target", ProjectType::Rust, 100),
    ];
    let grouped = group_by_type(&dirs);
    assert_eq!(grouped.len(), 3);
    assert_eq!(grouped[0].0, ProjectType::Rust);
    assert_eq!(grouped[0].1.len(), 2);
    assert_eq!(grouped[0].1[0].path, vec!["big-target".to_string()]);
    assert_eq!(grouped[0].1[1].path, vec!["small-target".to_string()]);
    assert_eq!(grouped[1].0, ProjectType::Node);
    assert_eq!(grouped[1].1.len(), 1);
    assert_eq!(grouped[2].0, ProjectType::Python);
}

#[test]
fn selector_format_size_matches_scanner() {
    assert_eq!(GroupedSelector::format_size(1536), "1.5 KB");
    assert_eq!(GroupedSelector::format_size(512), "512 B");
}
