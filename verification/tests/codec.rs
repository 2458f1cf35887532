use minesweeper::board::{BoardState, Entry};
use minesweeper::encoding::{ClientToServerPacket, ServerToClientPacket};

#[test]
fn decode_reveal_frame() {
    let bytes = [0u8, 0x34, 0x12, 0x78, 0x56];
    let p = ClientToServerPacket::decode(&bytes).unwrap();
    assert_eq!(p, ClientToServerPacket::RevealSquare((0x1234, 0x5678)));
}

#[test]
fn decode_chord_and_flag_frames() {
    let chord = ClientToServerPacket::decode(&[1u8, 2, 0, 3, 0]).unwrap();
    assert_eq!(chord, ClientToServerPacket::ChordSquare((2, 3)));
    let flag = ClientToServerPacket::decode(&[2u8, 5, 0, 0, 1]).unwrap();
    assert_eq!(flag, ClientToServerPacket::ToggleFlagSquare((5, 256)));
}

#[test]
fn decode_new_board_frame() {
    let p = ClientToServerPacket::decode(&[3u8]).unwrap();
    assert_eq!(p, ClientToServerPacket::NewBoard);
}

#[test]
fn decode_config_frame() {
    let p = ClientToServerPacket::decode(&[4u8, 20, 0, 10, 0, 0x40, 0, 0, 0]).unwrap();
    assert_eq!(
        p,
        ClientToServerPacket::NextBoardConfig { width: 20, height: 10, num_mines: 0x40 }
    );
}

#[test]
fn malformed_frames_are_rejected_not_panicking() {
    assert!(ClientToServerPacket::decode(&[]).is_err());
    assert!(ClientToServerPacket::decode(&[0u8]).is_err());
    assert!(ClientToServerPacket::decode(&[0u8, 1, 2, 3]).is_err());
    assert!(ClientToServerPacket::decode(&[0u8, 1, 2, 3, 4, 5]).is_err());
    assert!(ClientToServerPacket::decode(&[1u8, 1, 2, 3]).is_err());
    assert!(ClientToServerPacket::decode(&[2u8, 1, 2, 3, 4, 5]).is_err());
    assert!(ClientToServerPacket::decode(&[3u8, 0]).is_err());
    assert!(ClientToServerPacket::decode(&[4u8, 1, 2, 3, 4, 5, 6, 7]).is_err());
    assert!(ClientToServerPacket::decode(&[4u8, 1, 2, 3, 4, 5, 6, 7, 8, 9]).is_err());
    assert!(ClientToServerPacket::decode(&[5u8, 0, 0, 0, 0]).is_err());
    assert!(ClientToServerPacket::decode(&[255u8]).is_err());
}

#[test]
fn client_frames_round_trip_through_decode() {
    // hand-encoded frames for every variant, as a client would send them
    let frames: Vec<(Vec<u8>, ClientToServerPacket)> = vec![
        (vec![0, 7, 0, 9, 0], ClientToServerPacket::RevealSquare((7, 9))),
        (vec![1, 0, 0, 1, 0], ClientToServerPacket::ChordSquare((0, 1))),
        (vec![2, 255, 255, 0, 0], ClientToServerPacket::ToggleFlagSquare((65535, 0))),
        (vec![3], ClientToServerPacket::NewBoard),
        (
            vec![4, 100, 0, 100, 0, 16, 39, 0, 0],
            ClientToServerPacket::NextBoardConfig { width: 100, height: 100, num_mines: 10000 },
        ),
    ];
    for (bytes, expected) in frames {
        assert_eq!(ClientToServerPacket::decode(&bytes).unwrap(), expected);
    }
}

#[test]
fn encode_board_win_and_config() {
    assert_eq!(ServerToClientPacket::BoardWin.encode(), vec![5u8]);
    let p = ServerToClientPacket::NextBoardConfig { width: 20, height: 20, num_mines: 80 };
    assert_eq!(p.encode(), vec![6u8, 20, 0, 20, 0, 80, 0, 0, 0]);
}

#[test]
fn encode_player_info_carries_name_bytes() {
    let p = ServerToClientPacket::PlayerInfo {
        player_id: 9,
        color: (1, 2, 3, 4),
        name: String::from("ab"),
    };
    assert_eq!(p.encode(), vec![2u8, 9, 1, 2, 3, 4, 97, 98]);
    let q = ServerToClientPacket::YourPlayerInfo {
        player_id: 9,
        color: (1, 2, 3, 4),
        name: String::from("ab"),
    };
    assert_eq!(q.encode(), vec![3u8, 9, 1, 2, 3, 4, 97, 98]);
}

#[test]
fn encode_sparse_update() {
    let p = ServerToClientPacket::SparseBoard { updates: vec![(1, 2, 253, 7), (0, 256, 3, 0)] };
    assert_eq!(p.encode(), vec![1u8, 1, 0, 2, 0, 253, 7, 0, 0, 0, 1, 3, 0]);
}

#[test]
fn encode_board_loss() {
    let p = ServerToClientPacket::BoardLoss {
        loser_id: 3,
        hit_mines: vec![(1, 1)],
        wrong_flags: vec![(0, 2), (2, 0)],
    };
    assert_eq!(p.encode(), vec![4u8, 3, 1, 1, 0, 1, 0, 0, 0, 2, 0, 2, 0, 0, 0]);
}

#[test]
fn encode_full_board() {
    let p = ServerToClientPacket::FullBoard {
        width: 2,
        height: 1,
        num_mines: 1,
        board_state: BoardState::Lost,
        entries: vec![vec![Entry::Mine, Entry::Unknown { flagged: true }]],
        player_ids: vec![vec![4, 5]],
    };
    assert_eq!(p.encode(), vec![0u8, 2, 0, 1, 0, 1, 0, 0, 0, 2, 255, 254, 4, 5]);
}

#[test]
fn entry_bytes_follow_the_protocol() {
    assert_eq!(minesweeper::encoding::encode_entry(&Entry::Unknown { flagged: false }), 253);
    assert_eq!(minesweeper::encoding::encode_entry(&Entry::Unknown { flagged: true }), 254);
    assert_eq!(minesweeper::encoding::encode_entry(&Entry::Mine), 255);
    assert_eq!(minesweeper::encoding::encode_entry(&Entry::Revealed { num_mines: 8 }), 8);
}
