use beads::command::{normalize_rotation, CommandLog, LogTarget, Message};
use beads::entities::{GridAction, Side, Size};
use beads::model::Model;

fn fresh_log(color: u32, default_color: u32) -> CommandLog<u32> {
    let model = Model::new(Size { width: 2, height: 2 }, color);
    CommandLog::new(model, default_color)
}

fn grid_rows(log: &CommandLog<u32>) -> Vec<Vec<u32>> {
    let g = log.model().grid_color();
    let mut out = Vec::new();
    for r in 0..g.height() {
        let mut row = Vec::new();
        for c in 0..g.width() {
            row.push(g.get(r, c));
        }
        out.push(row);
    }
    out
}

#[test]
fn grow_right_then_undo_restores_the_square() {
    // a 2x2 grid of color A; Add(Right) with default color B yields
    // [A,A,B] / [A,A,B]; undo restores [A,A] / [A,A]
    let a = 1u32;
    let b = 2u32;
    let mut log = fresh_log(a, b);
    log.update(Message::GridAction(GridAction::Add(Side::Right))).unwrap();
    assert_eq!(grid_rows(&log), vec![vec![a, a, b], vec![a, a, b]]);
    log.update(Message::Undo).unwrap();
    assert_eq!(grid_rows(&log), vec![vec![a, a], vec![a, a]]);
}

#[test]
fn undo_restores_after_a_run_of_commands_and_redo_replays_them() {
    let mut log = fresh_log(1, 0);
    let initial = grid_rows(&log);
    log.update(Message::SetColor(0, 0, 5)).unwrap();
    log.update(Message::GridAction(GridAction::Add(Side::Bottom))).unwrap();
    log.update(Message::SetColor(2, 1, 7)).unwrap();
    let edited = grid_rows(&log);
    assert_eq!(edited, vec![vec![5, 1], vec![1, 1], vec![0, 7]]);

    log.update(Message::Undo).unwrap();
    log.update(Message::Undo).unwrap();
    log.update(Message::Undo).unwrap();
    assert_eq!(grid_rows(&log), initial);
    // extra undos on an empty queue change nothing
    log.update(Message::Undo).unwrap();
    assert_eq!(grid_rows(&log), initial);

    log.update(Message::Redo).unwrap();
    log.update(Message::Redo).unwrap();
    log.update(Message::Redo).unwrap();
    assert_eq!(grid_rows(&log), edited);
}

#[test]
fn noop_set_produces_no_undo_entry() {
    let mut log = fresh_log(1, 0);
    log.update(Message::SetColor(0, 0, 1)).unwrap();
    assert_eq!(log.undo_len(), 0);
    log.update(Message::SetColor(0, 0, 2)).unwrap();
    assert_eq!(log.undo_len(), 1);
}

#[test]
fn a_new_edit_clears_pending_redo_entries() {
    let mut log = fresh_log(1, 0);
    log.update(Message::SetColor(0, 0, 5)).unwrap();
    log.update(Message::Undo).unwrap();
    assert_eq!(log.redo_len(), 1);
    log.update(Message::SetColor(1, 1, 6)).unwrap();
    assert_eq!(log.redo_len(), 0);
}

#[test]
fn a_click_starts_a_fresh_edit_branch() {
    let mut log = fresh_log(1, 0);
    log.update(Message::SetColor(0, 0, 5)).unwrap();
    log.update(Message::Undo).unwrap();
    assert_eq!(log.redo_len(), 1);
    log.update(Message::GridClicked(0, 0)).unwrap();
    assert_eq!(log.redo_len(), 0);
}

#[test]
fn undo_and_redo_do_not_clear_the_redo_queue() {
    let mut log = fresh_log(1, 0);
    log.update(Message::SetColor(0, 0, 5)).unwrap();
    log.update(Message::SetColor(0, 1, 6)).unwrap();
    log.update(Message::Undo).unwrap();
    log.update(Message::Undo).unwrap();
    assert_eq!(log.redo_len(), 2);
    log.update(Message::Redo).unwrap();
    assert_eq!(log.redo_len(), 1);
    assert_eq!(log.undo_len(), 1);
}

#[test]
fn failed_shrink_is_not_logged() {
    let model = Model::new(Size { width: 1, height: 1 }, 3u32);
    let mut log = CommandLog::new(model, 0);
    assert!(log.update(Message::GridAction(GridAction::Remove(Side::Left))).is_err());
    assert_eq!(log.undo_len(), 0);
    assert_eq!(grid_rows(&log), vec![vec![3]]);
}

#[test]
fn apply_records_into_the_chosen_queue() {
    let mut log = fresh_log(1, 0);
    log.apply(Message::SetColor(0, 0, 9), LogTarget::Redo).unwrap();
    assert_eq!(log.undo_len(), 0);
    assert_eq!(log.redo_len(), 1);
}

#[test]
fn undo_queue_evicts_oldest_beyond_capacity() {
    let mut log = fresh_log(0, 0);
    for i in 0..1005u32 {
        // alternate colors so every edit is effective
        log.update(Message::SetColor(0, 0, i + 1)).unwrap();
    }
    assert_eq!(log.undo_len(), 1000);
}

#[test]
fn rotation_accumulates_without_logging() {
    let mut log = fresh_log(1, 0);
    log.update(Message::Rotate(3)).unwrap();
    log.update(Message::Rotate(-5)).unwrap();
    assert_eq!(log.rotation(), -2);
    assert_eq!(log.undo_len(), 0);
}

#[test]
fn normalize_rotation_wraps_into_the_row() {
    assert_eq!(normalize_rotation(0, 4), 0);
    assert_eq!(normalize_rotation(5, 4), 1);
    assert_eq!(normalize_rotation(-1, 4), 3);
    assert_eq!(normalize_rotation(-8, 4), 0);
    assert_eq!(normalize_rotation(-9, 4), 3);
    assert_eq!(normalize_rotation(7, 1), 0);
}

#[test]
fn undo_of_a_removal_refills_with_the_default_color() {
    // removing an edge discards its colors; the logged inverse re-grows the
    // edge with the log's default color, not the removed one
    let mut log = fresh_log(1, 0);
    log.update(Message::GridAction(GridAction::Remove(Side::Top))).unwrap();
    assert_eq!(grid_rows(&log), vec![vec![1, 1]]);
    log.update(Message::Undo).unwrap();
    assert_eq!(grid_rows(&log), vec![vec![0, 0], vec![1, 1]]);
}

#[test]
fn out_of_bounds_edit_reports_and_logs_nothing() {
    let mut log = fresh_log(1, 0);
    assert!(log.update(Message::SetColor(9, 9, 5)).is_err());
    assert_eq!(log.undo_len(), 0);
    assert_eq!(grid_rows(&log), vec![vec![1, 1], vec![1, 1]]);
}
