use piso_display::manager::DisplayManager;
use piso_display::window::{Position, Window};

#[test]
fn new_registry_is_empty() {
    let manager = DisplayManager::new();
    assert_eq!(manager.root(), 0);
    assert_eq!(manager.next_id(), 1);
    assert!(manager.get(0).is_none());
    assert!(manager.get(1).is_none());
}

#[test]
fn ids_start_at_one_and_rise() {
    let mut manager = DisplayManager::new();
    let root = manager.root();
    let first = manager.add_child(root, Position::Normal);
    let second = manager.add_child(first, Position::Fixed(1, 2));
    let third = manager.add_child(root, Position::Relative(3, 4));
    assert_eq!((first, second, third), (1, 2, 3));
    assert!(first != root && second != root && third != root);
    assert_eq!(manager.next_id(), 4);
}

#[test]
fn ids_are_not_reused_after_removal() {
    let mut manager = DisplayManager::new();
    let first = manager.add_child(0, Position::Normal);
    manager.remove_child(first);
    let second = manager.add_child(0, Position::Normal);
    assert_eq!(first, 1);
    assert_eq!(second, 2);
    assert!(manager.get(first).is_none());
}

#[test]
fn new_window_has_no_size_and_no_focus() {
    let mut manager = DisplayManager::new();
    let parent = manager.add_child(0, Position::Normal);
    let id = manager.add_child(parent, Position::Relative(5, 6));
    let expected = Window {
        position: Position::Relative(5, 6),
        size: (0, 0),
        z: 0,
        focus: false,
        id: 2,
        parent: 1,
    };
    assert_eq!(manager.get(id), Some(&expected));
}

#[test]
fn a_parent_need_not_exist() {
    let mut manager = DisplayManager::new();
    let id = manager.add_child(40, Position::Normal);
    assert_eq!(id, 1);
    assert_eq!(manager.get(id).map(|w| w.parent), Some(40));
    assert!(manager.get(40).is_none());
}

#[test]
fn removed_window_is_absent() {
    let mut manager = DisplayManager::new();
    let a = manager.add_child(0, Position::Normal);
    let b = manager.add_child(0, Position::Normal);
    manager.remove_child(a);
    assert!(manager.get(a).is_none());
    assert!(manager.get_mut(a).is_none());
    assert_eq!(manager.get(b).map(|w| w.id), Some(b));
}

#[test]
fn removing_an_unknown_id_changes_nothing() {
    let mut manager = DisplayManager::new();
    let a = manager.add_child(0, Position::Fixed(7, 8));
    let before = *manager.get(a).unwrap();
    manager.remove_child(17);
    manager.remove_child(0);
    assert_eq!(manager.get(a), Some(&before));
    assert_eq!(manager.next_id(), 2);
}

#[test]
fn get_mut_writes_through() {
    let mut manager = DisplayManager::new();
    let a = manager.add_child(0, Position::Normal);
    let b = manager.add_child(0, Position::Normal);
    {
        let window = manager.get_mut(a).unwrap();
        assert_eq!(window.id, a);
        assert!(!window.focus);
        window.focus = true;
        window.z = 3;
    }
    assert_eq!(manager.get(a).map(|w| (w.focus, w.z)), Some((true, 3)));
    assert_eq!(manager.get(b).map(|w| (w.focus, w.z)), Some((false, 0)));
}

#[test]
fn get_mut_of_an_unknown_id_finds_nothing() {
    let mut manager = DisplayManager::new();
    manager.add_child(0, Position::Normal);
    assert!(manager.get_mut(2).is_none());
    assert!(manager.get_mut(0).is_none());
}

#[test]
fn children_are_listed_in_rising_order() {
    let mut manager = DisplayManager::new();
    let top = manager.add_child(0, Position::Normal);
    let a = manager.add_child(top, Position::Normal);
    let other = manager.add_child(0, Position::Normal);
    let b = manager.add_child(top, Position::Fixed(0, 0));
    let below_a = manager.add_child(a, Position::Normal);
    assert_eq!(manager.children(top), vec![a, b]);
    assert_eq!(manager.children(0), vec![top, other]);
    assert_eq!(manager.children(a), vec![below_a]);
    assert_eq!(manager.children(b), Vec::<u32>::new());
    assert_eq!(manager.children(99), Vec::<u32>::new());
}

#[test]
fn parent_window_is_found_by_id() {
    let mut manager = DisplayManager::new();
    let top = manager.add_child(0, Position::Fixed(2, 3));
    let child = manager.add_child(top, Position::Normal);
    let child_record = *manager.get(child).unwrap();
    let top_record = *manager.get(top).unwrap();
    assert_eq!(manager.parent_window(&child_record), Some(&top_record));
    assert_eq!(manager.parent_window(&top_record), None);
}

#[test]
fn removal_leaves_the_children_as_orphans() {
    let mut manager = DisplayManager::new();
    let top = manager.add_child(0, Position::Fixed(10, 20));
    let normal = manager.add_child(top, Position::Normal);
    let relative = manager.add_child(top, Position::Relative(3, 4));
    manager.get_mut(top).unwrap().size = (8, 5);
    let normal_record = *manager.get(normal).unwrap();
    let relative_record = *manager.get(relative).unwrap();
    assert_eq!(manager.calculate_position(&normal_record), (10, 25));
    assert_eq!(manager.calculate_position(&relative_record), (13, 29));

    manager.remove_child(top);

    assert!(manager.get(top).is_none());
    assert_eq!(manager.get(normal), Some(&normal_record));
    assert_eq!(manager.get(relative), Some(&relative_record));
    assert_eq!(manager.get(normal).map(|w| w.parent), Some(top));
    assert_eq!(manager.parent_window(&normal_record), None);
    assert_eq!(manager.children(top), vec![normal, relative]);
    assert_eq!(manager.calculate_position(&normal_record), (0, 0));
    assert_eq!(manager.calculate_position(&relative_record), (3, 4));
}

#[test]
fn a_registry_made_by_add_child_is_well_formed() {
    let mut manager = DisplayManager::new();
    assert!(manager.is_well_formed());
    let a = manager.add_child(0, Position::Normal);
    manager.add_child(a, Position::Normal);
    manager.add_child(77, Position::Fixed(1, 1));
    manager.remove_child(a);
    manager.get_mut(2).unwrap().focus = true;
    manager.get_mut(2).unwrap().size = (3, 3);
    assert!(manager.is_well_formed());
}

#[test]
fn a_record_under_a_wrong_id_is_not_well_formed() {
    let mut manager = DisplayManager::new();
    let a = manager.add_child(0, Position::Normal);
    manager.add_child(a, Position::Normal);
    manager.get_mut(a).unwrap().id = 2;
    assert!(!manager.is_well_formed());
    manager.get_mut(a).unwrap().id = a;
    assert!(manager.is_well_formed());
}

#[test]
fn windows_below_their_parents_are_acyclic() {
    let mut manager = DisplayManager::new();
    assert!(manager.is_acyclic());
    let a = manager.add_child(0, Position::Normal);
    let b = manager.add_child(a, Position::Relative(1, 1));
    let c = manager.add_child(b, Position::Normal);
    let late = manager.add_child(5, Position::Normal);
    let parent_of_late = manager.add_child(c, Position::Normal);
    assert_eq!((late, parent_of_late), (4, 5));
    assert!(manager.is_acyclic());
    for id in 1..6 {
        let record = *manager.get(id).unwrap();
        assert!(manager.has_position(&record));
    }
}

#[test]
fn a_circle_of_parents_is_found() {
    let mut manager = DisplayManager::new();
    let a = manager.add_child(2, Position::Normal);
    assert!(manager.is_acyclic());
    let b = manager.add_child(a, Position::Normal);
    let below = manager.add_child(b, Position::Normal);
    let fixed = manager.add_child(b, Position::Fixed(1, 1));
    let aside = manager.add_child(0, Position::Normal);
    assert!(!manager.is_acyclic());
    assert!(!manager.has_position(manager.get(a).unwrap()));
    assert!(!manager.has_position(manager.get(b).unwrap()));
    assert!(!manager.has_position(manager.get(below).unwrap()));
    assert!(manager.has_position(manager.get(fixed).unwrap()));
    assert!(manager.has_position(manager.get(aside).unwrap()));
    manager.remove_child(a);
    assert!(manager.is_acyclic());
}

#[test]
fn a_window_that_is_its_own_parent_is_found() {
    let mut manager = DisplayManager::new();
    let own = manager.add_child(1, Position::Relative(1, 1));
    assert_eq!(own, 1);
    assert!(!manager.is_acyclic());
    assert!(!manager.has_position(manager.get(own).unwrap()));
}

#[test]
fn a_fixed_window_ends_a_circle() {
    let mut manager = DisplayManager::new();
    let a = manager.add_child(2, Position::Fixed(3, 4));
    let b = manager.add_child(a, Position::Normal);
    manager.get_mut(a).unwrap().size = (1, 5);
    assert!(manager.is_acyclic());
    assert_eq!(manager.calculate_position(manager.get(a).unwrap()), (3, 4));
    assert_eq!(manager.calculate_position(manager.get(b).unwrap()), (3, 9));
}

#[test]
fn a_long_chain_has_an_end() {
    let mut manager = DisplayManager::new();
    let mut parent = 0;
    for _ in 0..200 {
        parent = manager.add_child(parent, Position::Relative(1, 2));
    }
    assert!(manager.is_acyclic());
    assert!(manager.has_position(manager.get(parent).unwrap()));
    assert_eq!(manager.calculate_position(manager.get(parent).unwrap()), (200, 400));
}
