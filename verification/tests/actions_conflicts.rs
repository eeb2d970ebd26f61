use starry::lr::action::{Action, ActionTable, ProductionId};
use starry::lr::conflict::{Conflict, ConflictDetector, ConflictReport};
use starry::lr::goto::ItemSetId;
use starry::cfg::TerminalId;

#[test]
fn test_action_creation() {
    let shift = Action::shift(1);
    assert!(shift.is_shift());
    assert_eq!(shift.shift_state(), Some(ItemSetId(1)));

    let reduce = Action::reduce(2);
    assert!(reduce.is_reduce());
    assert_eq!(reduce.reduce_production(), Some(ProductionId(2)));

    let accept = Action::accept();
    assert!(accept.is_accept());

    let error = Action::error();
    assert!(error.is_error());
}

#[test]
fn test_action_table() {
    let mut table = ActionTable::new(3, 2);

    table.set_shift(ItemSetId(0), TerminalId(0), ItemSetId(1));
    table.set_reduce(ItemSetId(1), TerminalId(1), ProductionId(0));
    table.set_accept(ItemSetId(2), TerminalId(2));

    assert!(table.get(ItemSetId(0), TerminalId(0)).is_shift());
    assert!(table.get(ItemSetId(1), TerminalId(1)).is_reduce());
    assert!(table.get(ItemSetId(2), TerminalId(2)).is_accept());
}

#[test]
fn test_action_display() {
    assert_eq!(Action::shift(1).to_string(), "s1");
    assert_eq!(Action::reduce(2).to_string(), "r2");
    assert_eq!(Action::accept().to_string(), "acc");
    assert_eq!(Action::error().to_string(), "");
}

#[test]
fn action_table_starts_with_errors_and_keeps_other_cells() {
    let mut table = ActionTable::new(2, 1);
    assert_eq!(table.state_count(), 2);
    assert_eq!(table.terminal_count(), 1);
    assert!(table.get(ItemSetId(1), TerminalId(1)).is_error());
    table.set_shift(ItemSetId(1), TerminalId(0), ItemSetId(7));
    assert_eq!(table.get(ItemSetId(1), TerminalId(0)).shift_state(), Some(ItemSetId(7)));
    assert!(table.get(ItemSetId(0), TerminalId(0)).is_error());
    assert!(table.get(ItemSetId(1), TerminalId(1)).is_error());
    let cells = table.iter();
    assert_eq!(cells.len(), 4);
    assert_eq!(cells[2].0, 1);
    assert_eq!(cells[2].1, 0);
    assert_eq!(cells[2].2, Action::shift(7));
}

#[test]
fn test_shift_reduce_conflict() {
    let conflict = Conflict::shift_reduce(ItemSetId(0), TerminalId(0), ItemSetId(1), ProductionId(2));

    assert!(conflict.is_shift_reduce());
    assert!(!conflict.is_reduce_reduce());
}

#[test]
fn test_reduce_reduce_conflict() {
    let conflict = Conflict::reduce_reduce(ItemSetId(0), TerminalId(0), ProductionId(1), ProductionId(2));

    assert!(conflict.is_reduce_reduce());
    assert!(!conflict.is_shift_reduce());
}

#[test]
fn test_conflict_detection() {
    let shift = Action::shift(1);
    let reduce = Action::reduce(2);

    let conflict = ConflictDetector::detect(ItemSetId(0), TerminalId(0), &shift, &reduce);

    assert!(conflict.is_some());
    let c = conflict.unwrap();
    assert!(c.is_shift_reduce());
}

#[test]
fn conflict_detection_edge_cases() {
    let e = Action::error();
    let s = Action::shift(1);
    let r1 = Action::reduce(1);
    let r2 = Action::reduce(2);
    // An empty cell, or the same action again, is no conflict.
    assert!(ConflictDetector::detect(ItemSetId(0), TerminalId(0), &e, &s).is_none());
    assert!(ConflictDetector::detect(ItemSetId(0), TerminalId(0), &s, &s).is_none());
    assert!(ConflictDetector::detect(ItemSetId(0), TerminalId(0), &r1, &r1).is_none());
    // A reduce placed where a shift stands, in either order, is a shift/reduce conflict.
    assert!(ConflictDetector::detect(ItemSetId(0), TerminalId(0), &r1, &s).unwrap().is_shift_reduce());
    // Two different reductions.
    assert!(ConflictDetector::detect(ItemSetId(3), TerminalId(1), &r1, &r2).unwrap().is_reduce_reduce());
}

#[test]
fn test_conflict_report() {
    let conflicts = vec![
        Conflict::shift_reduce(ItemSetId(0), TerminalId(0), ItemSetId(1), ProductionId(0)),
        Conflict::reduce_reduce(ItemSetId(1), TerminalId(1), ProductionId(0), ProductionId(1)),
    ];

    let report = ConflictReport::new(conflicts);

    assert!(report.is_ambiguous());
    assert!(report.has_shift_reduce_conflicts());
    assert!(report.has_reduce_reduce_conflicts());
    assert_eq!(report.shift_reduce_count, 1);
    assert_eq!(report.reduce_reduce_count, 1);
}

#[test]
fn empty_conflict_report_is_not_ambiguous() {
    let report = ConflictReport::new(Vec::new());
    assert!(!report.is_ambiguous());
    assert!(!report.has_shift_reduce_conflicts());
    assert!(!report.has_reduce_reduce_conflicts());
    assert_eq!(report.shift_reduce_count + report.reduce_reduce_count, 0);
}
