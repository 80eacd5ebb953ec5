use maze_runner::levels::{is_wall, MAP_H, MAP_W};
use maze_runner::maze::{empty, Difficulty, TilePos};
use maze_runner::sync::ids_missing_from;
use maze_runner::session::{
    clean_name, decide_admission, handshake_step, Admission, HandshakeAction, HandshakeReply,
    MAX_CLIENTS, PROTOCOL_VERSION,
};

#[test]
fn clean_name_drops_control_chars_and_keeps_twenty() {
    assert_eq!(clean_name("alice"), "alice");
    assert_eq!(clean_name("a\u{7}b\nc"), "abc");
    assert_eq!(clean_name("abcdefghijklmnopqrstuvwxyz"), "abcdefghijklmnopqrst");
    assert_eq!(clean_name("\u{1}abcdefghijklmnopqrstuvwxyz"), "abcdefghijklmnopqrst");
    assert_eq!(clean_name("  bob  "), "  bob  ");
    assert_eq!(clean_name("émile"), "émile");
}

#[test]
fn clean_name_falls_back_on_player_when_blank() {
    assert_eq!(clean_name(""), "Player");
    assert_eq!(clean_name("   "), "Player");
    assert_eq!(clean_name("\t\r\n"), "Player");
    assert_eq!(clean_name(" \u{3000} "), "Player");
    assert_eq!(clean_name("\u{7f}\u{1b}"), "Player");
}

#[test]
fn admission_checks_version_then_capacity() {
    assert_eq!(decide_admission(PROTOCOL_VERSION + 1, false, 0), Admission::VersionMismatch);
    assert_eq!(decide_admission(0, true, 0), Admission::VersionMismatch);
    assert_eq!(decide_admission(PROTOCOL_VERSION, false, MAX_CLIENTS), Admission::ServerFull);
    assert_eq!(decide_admission(PROTOCOL_VERSION, true, MAX_CLIENTS), Admission::Admit);
    assert_eq!(decide_admission(PROTOCOL_VERSION, false, MAX_CLIENTS - 1), Admission::Admit);
    assert_eq!(MAX_CLIENTS, 64);
    assert_eq!(
        Admission::VersionMismatch.refusal_text(),
        Some("client/server version mismatch".to_string())
    );
    assert_eq!(Admission::ServerFull.refusal_text(), Some("server is full".to_string()));
    assert_eq!(Admission::Admit.refusal_text(), None);
}

#[test]
fn spawns_are_handed_out_in_turn() {
    let maze = empty(0, Difficulty::Easy).maze;
    assert_eq!(maze.spawn_tile(1), TilePos { x: 2, y: 2 });
    assert_eq!(maze.spawn_tile(2), TilePos { x: 3, y: 11 });
    assert_eq!(maze.spawn_tile(11), TilePos { x: 2, y: 2 });
    assert_eq!(maze.respawn_tile(1), TilePos { x: 3, y: 11 });
    assert_eq!(maze.respawn_tile(10), TilePos { x: 2, y: 2 });
    assert_eq!(maze.respawn_tile(0), TilePos { x: 2, y: 2 });
}

#[test]
fn fixed_levels_wall_off_everything_outside_the_map() {
    assert_eq!((MAP_W, MAP_H), (16, 16));
    for level in 0..3u8 {
        assert!(is_wall(level, -1, 0));
        assert!(is_wall(level, 0, -1));
        assert!(is_wall(level, 16, 5));
        assert!(is_wall(level, 5, 16));
        assert!(is_wall(level, i32::MIN, i32::MAX));
    }
    assert!(is_wall(7, 100, 100));
}

#[test]
fn first_level_follows_its_map() {
    assert!(is_wall(0, 0, 0));
    assert!(!is_wall(0, 1, 1));
    assert!(is_wall(0, 7, 1));
    assert!(!is_wall(0, 3, 8));
    assert!(is_wall(0, 4, 8));
    assert!(!is_wall(0, 14, 13));
    assert!(is_wall(0, 15, 14));
    assert!(!is_wall(0, 1, 14));
    let open: usize = (0..16)
        .flat_map(|y| (0..16).map(move |x| (x, y)))
        .filter(|&(x, y)| !is_wall(0, x, y))
        .count();
    assert_eq!(open, 109);
}

fn dead_ends(level: u8) -> usize {
    let open = |x: i32, y: i32| !is_wall(level, x, y);
    (0..16)
        .flat_map(|y| (0..16).map(move |x| (x, y)))
        .filter(|&(x, y)| open(x, y))
        .filter(|&(x, y)| {
            [(1, 0), (-1, 0), (0, 1), (0, -1)]
                .iter()
                .filter(|&&(dx, dy)| open(x + dx, y + dy))
                .count()
                == 1
        })
        .count()
}

#[test]
fn later_levels_have_more_dead_ends() {
    assert_eq!(dead_ends(0), 6);
    assert_eq!(dead_ends(1), 8);
    assert_eq!(dead_ends(2), 10);
    for level in 0..3u8 {
        for i in 0..16 {
            assert!(is_wall(level, i, 0));
            assert!(is_wall(level, 0, i));
            assert!(is_wall(level, i, 15));
            assert!(is_wall(level, 15, i));
        }
    }
    assert!(!is_wall(1, 1, 1));
    assert!(is_wall(1, 1, 2));
    assert!(!is_wall(2, 3, 2));
    assert!(is_wall(2, 4, 1));
}

#[test]
fn snapshot_reconciliation_finds_stale_and_new_ids() {
    let scene = vec![1u64, 2, 3, 5];
    let snapshot = vec![5u64, 4, 2, 6];
    assert_eq!(ids_missing_from(&scene, &snapshot), vec![1, 3]);
    assert_eq!(ids_missing_from(&snapshot, &scene), vec![4, 6]);
    assert_eq!(ids_missing_from(&vec![], &snapshot), Vec::<u64>::new());
    assert_eq!(ids_missing_from(&scene, &vec![]), scene);
}

#[test]
fn cleaning_a_clean_name_changes_nothing() {
    for name in ["alice", "a\u{7}b\nc", "\u{1}abcdefghijklmnopqrstuvwxyz", "  bob  ", "émile", ""] {
        let once = clean_name(name);
        assert_eq!(clean_name(&once), once);
    }
}

#[test]
fn the_handshake_retries_five_times_at_most() {
    assert_eq!(handshake_step(0, HandshakeReply::Welcome), HandshakeAction::Accept);
    assert_eq!(handshake_step(4, HandshakeReply::Welcome), HandshakeAction::Accept);
    assert_eq!(handshake_step(2, HandshakeReply::Refused), HandshakeAction::Fail);
    assert_eq!(handshake_step(0, HandshakeReply::Silence), HandshakeAction::Retry);
    assert_eq!(handshake_step(3, HandshakeReply::Other), HandshakeAction::Retry);
    assert_eq!(handshake_step(4, HandshakeReply::Silence), HandshakeAction::GiveUp);
    assert_eq!(handshake_step(4, HandshakeReply::Other), HandshakeAction::GiveUp);
}
