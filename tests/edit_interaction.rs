use paragem::edit::{EditAction, EditEnum, EditState, PointerFrame};

fn frame(pressed: bool, was_pressed: bool, hit: Option<usize>) -> PointerFrame {
    PointerFrame { pressed, was_pressed, hit }
}

fn fixed_of(action: &EditAction) -> Vec<usize> {
    match action {
        EditAction::Build { fixed, .. } => fixed.clone(),
        EditAction::RebuildAndSolve { fixed, .. } => fixed.clone(),
        other => panic!("no fixed set in {:?}", other),
    }
}

#[test]
fn new_state_is_selecting_with_nothing_selected() {
    let e = EditState::new();
    assert_eq!(e.state, EditEnum::Selecting);
    assert!(e.selected_indices.is_empty());
    assert_eq!(e.curr_cylinder, usize::MAX);
    let f = EditState::from_annotation_state(());
    assert_eq!(f.curr_cylinder, 0);
    assert_eq!(f.state, EditEnum::Selecting);
}

#[test]
fn no_peeling_selects_hits_once_and_drags_after_release() {
    let mut e = EditState::new();
    let a = e.handle_edit_no_peeling(6, &frame(true, false, Some(2)));
    assert!(matches!(a, EditAction::Idle));
    e.handle_edit_no_peeling(6, &frame(true, true, Some(2)));
    e.handle_edit_no_peeling(6, &frame(true, true, None));
    e.handle_edit_no_peeling(6, &frame(true, true, Some(4)));
    assert_eq!(e.selected_indices, vec![2, 4]);
    assert_eq!(e.state, EditEnum::Selecting);
    e.handle_edit_no_peeling(6, &frame(false, true, Some(1)));
    assert_eq!(e.selected_indices, vec![2, 4]);
    assert_eq!(e.state, EditEnum::Dragging);
}

#[test]
fn no_peeling_release_with_empty_selection_stays_selecting() {
    let mut e = EditState::new();
    e.handle_edit_no_peeling(4, &frame(true, false, None));
    e.handle_edit_no_peeling(4, &frame(false, true, None));
    assert_eq!(e.state, EditEnum::Selecting);
}

#[test]
fn no_peeling_press_on_selected_point_builds_with_complement_fixed() {
    let mut e = EditState::new();
    e.handle_edit_no_peeling(6, &frame(true, false, Some(2)));
    e.handle_edit_no_peeling(6, &frame(true, true, Some(4)));
    e.handle_edit_no_peeling(6, &frame(false, true, None));
    let a = e.handle_edit_no_peeling(6, &frame(true, false, Some(4)));
    match &a {
        EditAction::Build { anchor, .. } => assert_eq!(*anchor, 4),
        other => panic!("expected a build, got {:?}", other),
    }
    assert_eq!(fixed_of(&a), vec![0, 1, 3, 5, 4]);
    assert_eq!(e.selected_indices, vec![4, 2]);
    assert_eq!(e.state, EditEnum::Dragging);
    let held = e.handle_edit_no_peeling(6, &frame(true, true, Some(1)));
    assert!(matches!(held, EditAction::Solve { anchor: 4 }));
    let released = e.handle_edit_no_peeling(6, &frame(false, true, None));
    assert!(matches!(released, EditAction::Idle));
    assert_eq!(e.state, EditEnum::Dragging);
}

#[test]
fn no_peeling_press_off_selection_returns_to_selecting() {
    let mut e = EditState::new();
    e.handle_edit_no_peeling(5, &frame(true, false, Some(1)));
    e.handle_edit_no_peeling(5, &frame(false, true, None));
    assert_eq!(e.state, EditEnum::Dragging);
    let a = e.handle_edit_no_peeling(5, &frame(true, false, Some(3)));
    assert!(matches!(a, EditAction::Idle));
    assert_eq!(e.state, EditEnum::Selecting);
    assert!(e.selected_indices.is_empty());

    e.handle_edit_no_peeling(5, &frame(true, false, Some(0)));
    e.handle_edit_no_peeling(5, &frame(false, true, None));
    e.handle_edit_no_peeling(5, &frame(true, false, None));
    assert_eq!(e.state, EditEnum::Selecting);
    assert!(e.selected_indices.is_empty());
}

#[test]
fn peeling_press_captures_and_drag_frees_points_within_reach() {
    let mut e = EditState::new();
    let held_without_press = e.handle_edit_with_peeling(7, &frame(true, true, Some(3)), 0);
    assert!(matches!(held_without_press, EditAction::Idle));
    assert_eq!(e.state, EditEnum::Selecting);
    let a = e.handle_edit_with_peeling(7, &frame(true, false, Some(3)), 0);
    assert!(matches!(a, EditAction::Capture { anchor: 3 }));
    assert_eq!(e.selected_indices, vec![3]);
    assert_eq!(e.state, EditEnum::Dragging);

    let a = e.handle_edit_with_peeling(7, &frame(true, true, None), 1);
    assert!(matches!(a, EditAction::RebuildAndSolve { anchor: 3, .. }));
    assert_eq!(fixed_of(&a), vec![0, 1, 5, 6, 3]);
    assert_eq!(e.selected_indices, vec![3, 2, 4]);

    let a = e.handle_edit_with_peeling(7, &frame(true, true, None), 0);
    assert_eq!(fixed_of(&a), vec![0, 1, 2, 4, 5, 6, 3]);
    assert_eq!(e.selected_indices, vec![3]);

    let a = e.handle_edit_with_peeling(7, &frame(false, true, None), 0);
    assert!(matches!(a, EditAction::Idle));
    assert_eq!(e.state, EditEnum::Selecting);
    assert!(e.selected_indices.is_empty());
}

#[test]
fn peeling_miss_does_not_start_a_drag() {
    let mut e = EditState::new();
    let a = e.handle_edit_with_peeling(4, &frame(true, false, None), 3);
    assert!(matches!(a, EditAction::Idle));
    assert_eq!(e.state, EditEnum::Selecting);
}

#[test]
fn peeling_larger_distance_frees_a_superset() {
    let n = 10;
    let mut free_sets = Vec::new();
    for radius in 0..6usize {
        let mut e = EditState::new();
        e.handle_edit_with_peeling(n, &frame(true, false, Some(2)), 0);
        let a = e.handle_edit_with_peeling(n, &frame(true, true, None), radius);
        let fixed = fixed_of(&a);
        for i in 0..n {
            let free = e.selected_indices.contains(&i);
            let pinned = fixed.contains(&i);
            assert!(free || pinned);
            assert!(!(free && pinned) || i == 2);
        }
        free_sets.push(e.selected_indices.clone());
    }
    for w in free_sets.windows(2) {
        assert!(w[0].iter().all(|i| w[1].contains(i)));
    }
    assert_eq!(free_sets[5], vec![2, 0, 1, 3, 4, 5, 6, 7]);
}

#[test]
fn peeling_radius_beyond_chain_frees_everything() {
    let mut e = EditState::new();
    e.handle_edit_with_peeling(4, &frame(true, false, Some(0)), 0);
    let a = e.handle_edit_with_peeling(4, &frame(true, true, None), usize::MAX);
    assert_eq!(fixed_of(&a), vec![0]);
    assert_eq!(e.selected_indices, vec![0, 1, 2, 3]);
}

#[test]
fn dispatch_follows_the_policy_flag() {
    let mut e = EditState::new();
    let a = e.handle_edit_operation(true, 5, &frame(true, false, Some(1)), 0);
    assert!(matches!(a, EditAction::Capture { anchor: 1 }));
    let mut f = EditState::new();
    let b = f.handle_edit_operation(false, 5, &frame(true, false, Some(1)), 0);
    assert!(matches!(b, EditAction::Idle));
    assert_eq!(f.selected_indices, vec![1]);
    assert_eq!(f.state, EditEnum::Selecting);
}

#[test]
fn abort_and_selection_edits() {
    let mut e = EditState::new();
    e.add_selected_point(3);
    e.add_selected_point(1);
    assert_eq!(e.selected_indices, vec![3, 1]);
    e.state = EditEnum::Dragging;
    e.abort_gesture();
    assert_eq!(e.state, EditEnum::Selecting);
    assert!(e.selected_indices.is_empty());
    e.add_selected_point(2);
    e.clear_selected();
    assert!(e.selected_indices.is_empty());
}
