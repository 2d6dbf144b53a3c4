use netchannel::interpolation_history::{
    confirmed_update_action, initial_insert_action, ComponentSyncMode, ConfirmedHistory,
    ConfirmedUpdateAction, InitialInsertAction, Tick,
};

#[test]
fn history_add_peek_pop() {
    let mut history: ConfirmedHistory<u32> = ConfirmedHistory::new();
    history.add_item(Tick(5), 500);
    history.add_item(Tick(2), 200);
    history.add_item(Tick(9), 900);

    assert_eq!(history.peek(), Some((Tick(2), &200)));
    assert_eq!(history.pop(), Some((Tick(2), 200)));
    assert_eq!(history.pop(), Some((Tick(5), 500)));
    assert_eq!(history.pop(), Some((Tick(9), 900)));
    assert_eq!(history.pop(), None);
}

#[test]
fn history_add_replaces_same_tick() {
    let mut history: ConfirmedHistory<u32> = ConfirmedHistory::new();
    history.add_item(Tick(3), 1);
    history.add_item(Tick(3), 2);
    assert_eq!(history.pop(), Some((Tick(3), 2)));
    assert_eq!(history.pop(), None);
}

#[test]
fn history_pop_until_tick() {
    let mut history: ConfirmedHistory<&str> = ConfirmedHistory::new();
    history.add_item(Tick(1), "a");
    history.add_item(Tick(4), "b");
    history.add_item(Tick(8), "c");

    // draining up to tick 6 removes the entries at ticks 1 and 4 and
    // hands back the most recent of them; the entry at tick 8 stays
    assert_eq!(history.pop_until_tick(Tick(6)), Some((Tick(4), "b")));
    assert_eq!(history.peek(), Some((Tick(8), &"c")));

    // nothing is ready below the remaining tick
    assert_eq!(history.pop_until_tick(Tick(7)), None);
    assert_eq!(history.peek(), Some((Tick(8), &"c")));
}

#[test]
fn history_clear() {
    let mut history: ConfirmedHistory<u32> = ConfirmedHistory::new();
    history.add_item(Tick(1), 10);
    history.clear();
    assert_eq!(history.pop(), None);
}

#[test]
fn update_actions_by_sync_mode() {
    assert_eq!(
        confirmed_update_action(ComponentSyncMode::Full, true),
        ConfirmedUpdateAction::RecordInHistory
    );
    assert_eq!(
        confirmed_update_action(ComponentSyncMode::Full, false),
        ConfirmedUpdateAction::ReportMissingHistory
    );
    assert_eq!(
        confirmed_update_action(ComponentSyncMode::Simple, false),
        ConfirmedUpdateAction::OverwriteComponent
    );
    assert_eq!(
        confirmed_update_action(ComponentSyncMode::Once, true),
        ConfirmedUpdateAction::Ignore
    );
    assert_eq!(
        initial_insert_action(ComponentSyncMode::Full),
        InitialInsertAction::InsertWithHistory
    );
    assert_eq!(
        initial_insert_action(ComponentSyncMode::Simple),
        InitialInsertAction::CopyComponentOnly
    );
}
