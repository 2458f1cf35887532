use minesweeper::actor::{BoardConfig, BoardEvent, Outbound, ServerState};
use minesweeper::board::BoardState;
use minesweeper::encoding::ServerToClientPacket;

fn fresh_server() -> ServerState {
    ServerState::new(
        BoardConfig { width: 3, height: 3, num_mines: 9 },
        vec![String::from("quick")],
        vec![String::from("fox")],
    )
}

#[test]
fn out_of_bounds_actions_are_ignored_silently() {
    let mut s = fresh_server();
    let addr = String::from("10.1.1.1");
    assert!(s.handle_event(BoardEvent::RevealSquare((3, 0)), &addr, 1).is_empty());
    assert!(s.handle_event(BoardEvent::ChordSquare((0, 3)), &addr, 2).is_empty());
    assert!(s.handle_event(BoardEvent::ToggleFlagSquare((9, 9)), &addr, 3).is_empty());
    assert_eq!(s.players.players().len(), 0);
}

#[test]
fn new_connection_gets_identity_snapshot_and_config() {
    let mut s = fresh_server();
    let addr = String::from("10.1.1.1");
    let out = s.handle_event(BoardEvent::NewConnection, &addr, 1);
    assert!(matches!(
        out[0],
        Outbound::Unicast(ServerToClientPacket::YourPlayerInfo { player_id: 1, .. })
    ));
    let full_boards = out
        .iter()
        .filter(|o| matches!(o, Outbound::Unicast(ServerToClientPacket::FullBoard { .. })))
        .count();
    assert_eq!(full_boards, 1);
    assert!(matches!(
        out.last().unwrap(),
        Outbound::Broadcast(ServerToClientPacket::PlayerInfo { player_id: 1, .. })
    ));
}

#[test]
fn loss_is_broadcast_with_the_hit_mine() {
    let mut s = fresh_server();
    let addr = String::from("10.1.1.1");
    let out = s.handle_event(BoardEvent::RevealSquare((1, 1)), &addr, 1);
    // the 3x3 board is all mines: sparse delta plus a loss packet
    assert_eq!(out.len(), 2);
    assert!(matches!(
        out[0],
        Outbound::Broadcast(ServerToClientPacket::SparseBoard { .. })
    ));
    match &out[1] {
        Outbound::Broadcast(ServerToClientPacket::BoardLoss { loser_id, hit_mines, wrong_flags }) => {
            assert_eq!(*loser_id, 1);
            assert_eq!(hit_mines, &vec![(1, 1)]);
            assert!(wrong_flags.is_empty());
        }
        other => panic!("expected a loss broadcast, got {:?}", packet_kind(other)),
    }
    assert_eq!(*s.board.board_state(), BoardState::Lost);
}

fn packet_kind(o: &Outbound) -> &'static str {
    match o {
        Outbound::Unicast(_) => "unicast",
        Outbound::Broadcast(_) => "broadcast",
    }
}

#[test]
fn new_board_waits_for_the_minimum_delay() {
    let mut s = fresh_server();
    let addr = String::from("10.1.1.1");
    s.handle_event(BoardEvent::RevealSquare((1, 1)), &addr, 1000);
    assert_eq!(*s.board.board_state(), BoardState::Lost);
    // too early: 400ms after the loss
    assert!(s.handle_event(BoardEvent::NewBoard, &addr, 1400).is_empty());
    assert_eq!(*s.board.board_state(), BoardState::Lost);
    // late enough: the board is replaced and a snapshot broadcast
    let out = s.handle_event(BoardEvent::NewBoard, &addr, 1501);
    assert_eq!(out.len(), 1);
    assert!(matches!(
        out[0],
        Outbound::Broadcast(ServerToClientPacket::FullBoard { .. })
    ));
    assert_eq!(*s.board.board_state(), BoardState::Uninitialized);
}

#[test]
fn new_board_is_refused_while_ongoing() {
    let mut s = fresh_server();
    let addr = String::from("10.1.1.1");
    assert!(s.handle_event(BoardEvent::NewBoard, &addr, 99999).is_empty());
    assert_eq!(*s.board.board_state(), BoardState::Uninitialized);
}

#[test]
fn reconfiguration_is_validated_and_broadcast() {
    let mut s = fresh_server();
    let addr = String::from("10.1.1.1");
    let bad = s.handle_event(
        BoardEvent::NextBoardConfig { width: 0, height: 5, num_mines: 1 },
        &addr,
        1,
    );
    assert!(bad.is_empty());
    assert_eq!(s.config.width, 3);
    let good = s.handle_event(
        BoardEvent::NextBoardConfig { width: 9, height: 8, num_mines: 10 },
        &addr,
        2,
    );
    assert_eq!(good.len(), 1);
    assert!(matches!(
        good[0],
        Outbound::Broadcast(ServerToClientPacket::NextBoardConfig {
            width: 9,
            height: 8,
            num_mines: 10
        })
    ));
    assert_eq!(s.config.width, 9);
    // the live board keeps its own dimensions until the next reset
    assert_eq!(s.board.width(), 3);
}

#[test]
fn flag_event_broadcasts_one_cell_delta() {
    let mut s = fresh_server();
    let addr = String::from("10.1.1.1");
    let out = s.handle_event(BoardEvent::ToggleFlagSquare((0, 2)), &addr, 1);
    assert_eq!(out.len(), 1);
    match &out[0] {
        Outbound::Broadcast(ServerToClientPacket::SparseBoard { updates }) => {
            assert_eq!(updates, &vec![(0u16, 2u16, 254u8, 1u8)]);
        }
        _ => panic!("expected a sparse broadcast"),
    }
}
