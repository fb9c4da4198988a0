use piso_display::manager::DisplayManager;
use piso_display::window::{Position, Window};

fn record(manager: &DisplayManager, id: u32) -> Window {
    *manager.get(id).unwrap()
}

#[test]
fn fixed_position_ignores_the_parent() {
    let mut manager = DisplayManager::new();
    let top = manager.add_child(0, Position::Relative(100, 200));
    let fixed = manager.add_child(top, Position::Fixed(7, 9));
    manager.get_mut(top).unwrap().size = (30, 40);
    assert_eq!(manager.calculate_position(&record(&manager, fixed)), (7, 9));
}

#[test]
fn fixed_position_without_a_parent() {
    let mut manager = DisplayManager::new();
    let orphan = manager.add_child(55, Position::Fixed(4, 6));
    assert_eq!(manager.calculate_position(&record(&manager, orphan)), (4, 6));
    let below_root = manager.add_child(0, Position::Fixed(0, 1));
    assert_eq!(manager.calculate_position(&record(&manager, below_root)), (0, 1));
}

#[test]
fn fixed_position_of_a_window_that_is_not_on_file() {
    let manager = DisplayManager::new();
    let loose = Window {
        position: Position::Fixed(12, 34),
        size: (1, 1),
        z: 0,
        focus: false,
        id: 9,
        parent: 9,
    };
    assert_eq!(manager.calculate_position(&loose), (12, 34));
}

#[test]
fn normal_windows_stack_downwards() {
    let mut manager = DisplayManager::new();
    let top = manager.add_child(0, Position::Normal);
    let a = manager.add_child(top, Position::Normal);
    let b = manager.add_child(a, Position::Normal);
    manager.get_mut(top).unwrap().size = (20, 7);
    manager.get_mut(a).unwrap().size = (10, 4);
    manager.get_mut(b).unwrap().size = (10, 100);
    assert_eq!(manager.calculate_position(&record(&manager, top)), (0, 0));
    assert_eq!(manager.calculate_position(&record(&manager, a)), (0, 7));
    assert_eq!(manager.calculate_position(&record(&manager, b)), (0, 11));
}

#[test]
fn relative_position_is_an_offset_from_below_the_parent() {
    let mut manager = DisplayManager::new();
    let top = manager.add_child(0, Position::Fixed(10, 20));
    let child = manager.add_child(top, Position::Relative(3, 4));
    manager.get_mut(top).unwrap().size = (50, 5);
    assert_eq!(manager.calculate_position(&record(&manager, child)), (13, 29));
}

#[test]
fn relative_position_below_the_root() {
    let mut manager = DisplayManager::new();
    let child = manager.add_child(0, Position::Relative(3, 4));
    assert_eq!(manager.calculate_position(&record(&manager, child)), (3, 4));
}

#[test]
fn the_width_of_the_parent_plays_no_part() {
    let mut manager = DisplayManager::new();
    let top = manager.add_child(0, Position::Fixed(1, 1));
    let child = manager.add_child(top, Position::Normal);
    manager.get_mut(top).unwrap().size = (1000, 2);
    assert_eq!(manager.calculate_position(&record(&manager, child)), (1, 3));
}

#[test]
fn the_size_of_the_window_itself_plays_no_part() {
    let mut manager = DisplayManager::new();
    let top = manager.add_child(0, Position::Fixed(1, 1));
    let child = manager.add_child(top, Position::Relative(2, 2));
    manager.get_mut(child).unwrap().size = (9, 9);
    assert_eq!(manager.calculate_position(&record(&manager, child)), (3, 3));
}

#[test]
fn offsets_add_up_along_the_chain() {
    let mut manager = DisplayManager::new();
    let a = manager.add_child(0, Position::Relative(1, 2));
    let b = manager.add_child(a, Position::Relative(10, 20));
    let c = manager.add_child(b, Position::Normal);
    let d = manager.add_child(c, Position::Relative(100, 200));
    manager.get_mut(a).unwrap().size = (5, 3);
    manager.get_mut(b).unwrap().size = (5, 30);
    manager.get_mut(c).unwrap().size = (5, 300);
    assert_eq!(manager.calculate_position(&record(&manager, a)), (1, 2));
    assert_eq!(manager.calculate_position(&record(&manager, b)), (11, 25));
    assert_eq!(manager.calculate_position(&record(&manager, c)), (11, 55));
    assert_eq!(manager.calculate_position(&record(&manager, d)), (111, 555));
}

#[test]
fn a_parent_created_later_is_found() {
    let mut manager = DisplayManager::new();
    let child = manager.add_child(2, Position::Normal);
    assert_eq!(manager.calculate_position(&record(&manager, child)), (0, 0));
    let parent = manager.add_child(0, Position::Fixed(6, 6));
    assert_eq!(parent, 2);
    manager.get_mut(parent).unwrap().size = (1, 4);
    assert_eq!(manager.calculate_position(&record(&manager, child)), (6, 10));
}

#[test]
fn checked_position_agrees_where_the_position_fits() {
    let mut manager = DisplayManager::new();
    let top = manager.add_child(0, Position::Fixed(10, 20));
    let child = manager.add_child(top, Position::Relative(3, 4));
    manager.get_mut(top).unwrap().size = (50, 5);
    assert_eq!(manager.checked_position(&record(&manager, top)), Some((10, 20)));
    assert_eq!(manager.checked_position(&record(&manager, child)), Some((13, 29)));
}

#[test]
fn checked_position_at_the_very_edge() {
    let mut manager = DisplayManager::new();
    let top = manager.add_child(0, Position::Fixed(usize::MAX - 3, usize::MAX - 9));
    let child = manager.add_child(top, Position::Relative(3, 4));
    manager.get_mut(top).unwrap().size = (50, 5);
    assert_eq!(
        manager.checked_position(&record(&manager, child)),
        Some((usize::MAX, usize::MAX))
    );
}

#[test]
fn checked_position_beyond_the_edge() {
    let mut manager = DisplayManager::new();
    let top = manager.add_child(0, Position::Fixed(1, usize::MAX));
    let wide = manager.add_child(top, Position::Relative(usize::MAX, 0));
    let low = manager.add_child(top, Position::Normal);
    let lower = manager.add_child(low, Position::Normal);
    let fixed = manager.add_child(lower, Position::Fixed(2, 3));
    assert_eq!(manager.checked_position(&record(&manager, wide)), None);
    assert_eq!(manager.checked_position(&record(&manager, low)), Some((1, usize::MAX)));
    manager.get_mut(top).unwrap().size = (0, 1);
    assert_eq!(manager.checked_position(&record(&manager, low)), None);
    assert_eq!(manager.checked_position(&record(&manager, lower)), None);
    assert_eq!(manager.checked_position(&record(&manager, fixed)), Some((2, 3)));
}
