use vp_core::frame::{apply_connection_events, build_frame, contains_id, Frame, NetworkEvent};

#[test]
fn just_connected_dedups_in_first_appearance_order() {
    let frame = Frame {
        messages: vec![
            NetworkEvent::ClientConnected(5),
            NetworkEvent::ClientDataReceived(5, vec![1, 2]),
            NetworkEvent::ClientConnected(3),
            NetworkEvent::ClientConnected(5),
        ],
        currently_connected_clients: vec![5, 3],
        elapsed_micros: 20_000,
    };
    assert_eq!(frame.get_just_connected_clients(), vec![5, 3]);
}

#[test]
fn just_connected_is_empty_without_connects() {
    let frame = Frame {
        messages: vec![
            NetworkEvent::ClientDisconnected(1),
            NetworkEvent::ClientDataReceived(2, vec![]),
        ],
        currently_connected_clients: vec![2],
        elapsed_micros: 20_000,
    };
    assert!(frame.get_just_connected_clients().is_empty());
}

#[test]
fn connected_set_tracks_connects_and_disconnects() {
    let mut connected: Vec<usize> = Vec::new();
    apply_connection_events(&mut connected, &vec![
        NetworkEvent::ClientConnected(1),
        NetworkEvent::ClientConnected(2),
        NetworkEvent::ClientDisconnected(1),
    ]);
    assert_eq!(connected, vec![2]);
    // A reused id joins again after its disconnect was processed.
    apply_connection_events(&mut connected, &vec![NetworkEvent::ClientConnected(1)]);
    assert_eq!(connected, vec![2, 1]);
}

#[test]
fn disconnect_of_unknown_id_changes_nothing() {
    let mut connected: Vec<usize> = vec![4];
    apply_connection_events(&mut connected, &vec![NetworkEvent::ClientDisconnected(9)]);
    assert_eq!(connected, vec![4]);
}

#[test]
fn duplicate_connect_is_kept_once() {
    let mut connected: Vec<usize> = Vec::new();
    apply_connection_events(&mut connected, &vec![
        NetworkEvent::ClientConnected(1),
        NetworkEvent::ClientConnected(1),
    ]);
    assert_eq!(connected, vec![1]);
}

#[test]
fn build_frame_snapshots_the_connected_set() {
    let mut connected: Vec<usize> = vec![0];
    let frame = build_frame(
        vec![NetworkEvent::ClientConnected(1), NetworkEvent::ClientDisconnected(0)],
        &mut connected,
        20_000,
    );
    assert_eq!(connected, vec![1]);
    assert_eq!(frame.currently_connected_clients, vec![1]);
    assert_eq!(frame.elapsed_micros, 20_000);
    assert_eq!(frame.messages.len(), 2);
}

#[test]
fn contains_id_reports_membership() {
    let ids: Vec<usize> = vec![3, 9];
    assert!(contains_id(&ids, 3));
    assert!(contains_id(&ids, 9));
    assert!(!contains_id(&ids, 4));
}
