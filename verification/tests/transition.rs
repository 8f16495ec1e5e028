use moneycount::model::{Column, Entry, Model, Msg};

fn drafted(text: &str, col: Column) -> Msg {
    Msg::Update(String::from(text), col)
}

#[test]
fn add_assigns_increasing_unique_ids() {
    let mut m = Model::new();
    m.update(drafted("1", Column::Left));
    m.update(Msg::Add);
    m.update(drafted("2", Column::Right));
    m.update(Msg::Add);
    m.update(Msg::Add);
    assert_eq!(m.get_entry_count(), 3);
    assert_eq!(m.next_id(), 3);
    let ids: Vec<usize> = (0..3).map(|i| m.entry_at(i).id).collect();
    assert_eq!(ids, vec![0, 1, 2]);
    for a in 0..3 {
        for b in 0..3 {
            if a != b {
                assert_ne!(m.entry_at(a).id, m.entry_at(b).id);
            }
        }
    }
}

#[test]
fn add_with_empty_pending_still_appends() {
    let mut m = Model::new();
    assert_eq!(m.pending_value(), "");
    m.update(Msg::Add);
    assert_eq!(m.get_entry_count(), 1);
    assert_eq!(m.next_id(), 1);
    assert_eq!(m.entry_at(0).description, "");
    assert_eq!(m.entry_at(0).id, 0);
}

#[test]
fn add_consumes_draft() {
    let mut m = Model::new();
    m.update(drafted("42", Column::Right));
    assert_eq!(m.pending_value(), "42");
    assert_eq!(m.pending_column(), Column::Right);
    m.update(Msg::Add);
    assert_eq!(m.pending_value(), "");
    assert_eq!(m.entry_at(0).description, "42");
    assert_eq!(m.entry_at(0).column, Column::Right);
    assert!(!m.entry_at(0).editing);
}

#[test]
fn draft_shows_only_in_its_column() {
    let mut m = Model::new();
    m.update(drafted("7", Column::Right));
    assert_eq!(m.draft_for_column(Column::Right), "7");
    assert_eq!(m.draft_for_column(Column::Left), "");
    m.update(drafted("8", Column::Left));
    assert_eq!(m.draft_for_column(Column::Left), "8");
    assert_eq!(m.draft_for_column(Column::Right), "");
}

#[test]
fn update_rate_parses_exact() {
    let mut m = Model::new();
    m.update(Msg::UpdateRate(String::from("2.5")));
    assert_eq!(m.rate_micro(), 2_500_000);
}

#[test]
fn update_rate_unparseable_resets_default() {
    let mut m = Model::new();
    m.update(Msg::UpdateRate(String::from("2.5")));
    assert_eq!(m.rate_micro(), 2_500_000);
    m.update(Msg::UpdateRate(String::from("abc")));
    assert_eq!(m.rate_micro(), 5_350_000);
}

#[test]
fn default_rate_is_5_35() {
    let m = Model::new();
    assert_eq!(m.rate_micro(), 5_350_000);
}

#[test]
fn update_entry_missing_id_leaves_entries_unchanged() {
    let mut m = Model::new();
    m.update(drafted("10", Column::Left));
    m.update(Msg::Add);
    m.update(drafted("5", Column::Right));
    m.update(Msg::Add);
    let before: Vec<Entry> = (0..m.get_entry_count()).map(|i| m.entry_at(i).clone()).collect();
    m.update(Msg::UpdateEntry(99, Column::Right, String::from("77")));
    let after: Vec<Entry> = (0..m.get_entry_count()).map(|i| m.entry_at(i).clone()).collect();
    assert_eq!(before, after);
}

#[test]
fn update_entry_rewrites_matching_id() {
    let mut m = Model::new();
    m.update(drafted("10", Column::Left));
    m.update(Msg::Add);
    m.update(drafted("5", Column::Right));
    m.update(Msg::Add);
    m.update(Msg::UpdateEntry(1, Column::Left, String::from("8")));
    assert_eq!(m.entry_at(0).description, "10");
    assert_eq!(m.entry_at(0).column, Column::Left);
    assert_eq!(m.entry_at(1).description, "8");
    assert_eq!(m.entry_at(1).column, Column::Left);
    assert_eq!(m.entry_at(1).id, 1);
}

#[test]
fn noop_changes_nothing() {
    let mut m = Model::new();
    m.update(drafted("10", Column::Left));
    m.update(Msg::Add);
    let before: Vec<Entry> = (0..m.get_entry_count()).map(|i| m.entry_at(i).clone()).collect();
    m.update(Msg::NoOp);
    let after: Vec<Entry> = (0..m.get_entry_count()).map(|i| m.entry_at(i).clone()).collect();
    assert_eq!(before, after);
    assert_eq!(m.next_id(), 1);
    assert_eq!(m.rate_micro(), 5_350_000);
}

#[test]
fn restore_accepts_well_formed_parts() {
    let entries = vec![
        Entry::new("10", Column::Left, 0),
        Entry::new("5", Column::Right, 3),
    ];
    let m = Model::restore(entries, String::from("7"), Column::Right, 4, 2_500_000);
    let m = m.expect("well-formed parts restore");
    assert_eq!(m.get_entry_count(), 2);
    assert_eq!(m.entry_at(1).id, 3);
    assert_eq!(m.pending_value(), "7");
    assert_eq!(m.next_id(), 4);
    assert_eq!(m.rate_micro(), 2_500_000);
}

#[test]
fn restore_rejects_ids_out_of_order() {
    let entries = vec![
        Entry::new("10", Column::Left, 2),
        Entry::new("5", Column::Right, 1),
    ];
    assert!(Model::restore(entries, String::new(), Column::Left, 5, 5_350_000).is_none());
}

#[test]
fn restore_rejects_id_at_or_above_counter() {
    let entries = vec![Entry::new("10", Column::Left, 4)];
    assert!(Model::restore(entries, String::new(), Column::Left, 4, 5_350_000).is_none());
}
