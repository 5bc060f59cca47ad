use binary_star::controls::{plan_frame, Axis, Cursor, Direction, FramePlan, Keys};

fn no_keys() -> Keys {
    Keys {
        q: false,
        escape: false,
        tab: false,
        w: false,
        s: false,
        a: false,
        d: false,
        space: false,
        left_control: false,
    }
}

fn advance(plan: FramePlan) -> (bool, Option<Cursor>, Vec<Direction>) {
    match plan {
        FramePlan::Advance { grabbed, cursor, moves } => (grabbed, cursor, moves),
        FramePlan::Quit => panic!("the frame was expected to run"),
    }
}

#[test]
fn each_direction_follows_its_vector() {
    assert_eq!(Direction::Forward.axis(), Axis::Front);
    assert_eq!(Direction::Back.axis(), Axis::Front);
    assert_eq!(Direction::Left.axis(), Axis::Right);
    assert_eq!(Direction::Right.axis(), Axis::Right);
    assert_eq!(Direction::Up.axis(), Axis::WorldUp);
    assert_eq!(Direction::Down.axis(), Axis::WorldUp);
}

#[test]
fn each_direction_has_its_sign() {
    assert_eq!(Direction::Forward.sign(), 1);
    assert_eq!(Direction::Back.sign(), -1);
    assert_eq!(Direction::Left.sign(), -1);
    assert_eq!(Direction::Right.sign(), 1);
    assert_eq!(Direction::Up.sign(), 1);
    assert_eq!(Direction::Down.sign(), -1);
}

#[test]
fn keys_are_bound_to_directions() {
    let all = [
        Direction::Forward,
        Direction::Back,
        Direction::Left,
        Direction::Right,
        Direction::Up,
        Direction::Down,
    ];
    let held = [
        Keys { w: true, ..no_keys() },
        Keys { s: true, ..no_keys() },
        Keys { a: true, ..no_keys() },
        Keys { d: true, ..no_keys() },
        Keys { space: true, ..no_keys() },
        Keys { left_control: true, ..no_keys() },
    ];
    for (i, keys) in held.iter().enumerate() {
        for (j, direction) in all.iter().enumerate() {
            assert_eq!(keys.is_held(*direction), i == j);
        }
        assert_eq!(keys.held_moves(), vec![all[i]]);
    }
}

#[test]
fn no_held_key_gives_no_move() {
    assert_eq!(no_keys().held_moves(), Vec::<Direction>::new());
}

#[test]
fn held_moves_come_in_a_fixed_order() {
    let keys = Keys { w: true, s: true, a: true, d: true, space: true, left_control: true, ..no_keys() };
    assert_eq!(
        keys.held_moves(),
        vec![
            Direction::Forward,
            Direction::Back,
            Direction::Left,
            Direction::Right,
            Direction::Up,
            Direction::Down,
        ]
    );
    let some = Keys { left_control: true, a: true, w: true, ..no_keys() };
    assert_eq!(some.held_moves(), vec![Direction::Forward, Direction::Left, Direction::Down]);
}

#[test]
fn q_or_escape_asks_to_quit() {
    assert!(!no_keys().quit_requested());
    assert!(Keys { q: true, ..no_keys() }.quit_requested());
    assert!(Keys { escape: true, ..no_keys() }.quit_requested());
    assert!(Keys { q: true, escape: true, ..no_keys() }.quit_requested());
    assert!(!Keys { tab: true, w: true, ..no_keys() }.quit_requested());
}

#[test]
fn quitting_comes_before_everything_else() {
    let keys = Keys { q: true, tab: true, w: true, ..no_keys() };
    assert!(matches!(plan_frame(true, &keys), FramePlan::Quit));
    let keys = Keys { escape: true, space: true, ..no_keys() };
    assert!(matches!(plan_frame(false, &keys), FramePlan::Quit));
}

#[test]
fn an_idle_frame_changes_nothing() {
    let (grabbed, cursor, moves) = advance(plan_frame(true, &no_keys()));
    assert!(grabbed);
    assert_eq!(cursor, None);
    assert!(moves.is_empty());
    let (grabbed, cursor, moves) = advance(plan_frame(false, &no_keys()));
    assert!(!grabbed);
    assert_eq!(cursor, None);
    assert!(moves.is_empty());
}

#[test]
fn tab_releases_a_grabbed_pointer() {
    let keys = Keys { tab: true, ..no_keys() };
    let (grabbed, cursor, moves) = advance(plan_frame(true, &keys));
    assert!(!grabbed);
    assert_eq!(cursor, Some(Cursor { grab: false, show_pointer: true }));
    assert!(moves.is_empty());
}

#[test]
fn tab_grabs_a_free_pointer() {
    let keys = Keys { tab: true, d: true, ..no_keys() };
    let (grabbed, cursor, moves) = advance(plan_frame(false, &keys));
    assert!(grabbed);
    assert_eq!(cursor, Some(Cursor { grab: true, show_pointer: false }));
    assert_eq!(moves, vec![Direction::Right]);
}

#[test]
fn a_grabbed_pointer_is_hidden() {
    assert_eq!(Cursor::for_mode(true), Cursor { grab: true, show_pointer: false });
    assert_eq!(Cursor::for_mode(false), Cursor { grab: false, show_pointer: true });
}

#[test]
fn movement_keys_reach_the_plan() {
    let keys = Keys { s: true, space: true, ..no_keys() };
    let (grabbed, cursor, moves) = advance(plan_frame(true, &keys));
    assert!(grabbed);
    assert_eq!(cursor, None);
    assert_eq!(moves, vec![Direction::Back, Direction::Up]);
}

fn all_directions() -> [Direction; 6] {
    [
        Direction::Forward,
        Direction::Back,
        Direction::Left,
        Direction::Right,
        Direction::Up,
        Direction::Down,
    ]
}

#[test]
fn directions_pair_up_on_their_vectors() {
    for first in all_directions() {
        assert!(first.sign() == 1 || first.sign() == -1);
        for second in all_directions() {
            if first.axis() == second.axis() && first != second {
                assert_eq!(first.sign(), -second.sign());
            }
            if first.axis() == second.axis() && first.sign() == second.sign() {
                assert_eq!(first, second);
            }
        }
    }
}

#[test]
fn moves_are_the_held_directions_each_once() {
    let mut mask: u32 = 0;
    while mask < 64 {
        let keys = Keys {
            w: mask & 1 != 0,
            s: mask & 2 != 0,
            a: mask & 4 != 0,
            d: mask & 8 != 0,
            space: mask & 16 != 0,
            left_control: mask & 32 != 0,
            ..no_keys()
        };
        let moves = keys.held_moves();
        assert_eq!(moves.len(), mask.count_ones() as usize);
        for direction in all_directions() {
            let times = moves.iter().filter(|held| **held == direction).count();
            assert_eq!(times, if keys.is_held(direction) { 1 } else { 0 });
        }
        let ranks: Vec<usize> = moves
            .iter()
            .map(|held| all_directions().iter().position(|d| d == held).unwrap())
            .collect();
        assert!(ranks.windows(2).all(|pair| pair[0] < pair[1]));
        mask += 1;
    }
}
