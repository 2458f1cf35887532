//! Event serialization: the single owner of one board and one player
//! registry. It consumes inbound events one at a time and produces
//! the packets to send, so every client observes one total order of
//! board mutations.
use vstd::prelude::*;

use crate::board::{BoardState, MultiplayerBoard};
use crate::encoding::{encode_entry, sendable, ServerToClientPacket};
use crate::player_list::PlayerList;

verus! {

/// A fresh board may replace a finished one only after this many
/// milliseconds have passed since the terminal transition.
pub const MIN_DELAY_TILL_NEW_BOARD_MS: u64 = 500;

/// An inbound event: a client action or a connection joining, tagged
/// by the caller with its address key.
pub enum BoardEvent {
    RevealSquare((u16, u16)),
    ChordSquare((u16, u16)),
    ToggleFlagSquare((u16, u16)),
    NewConnection,
    NewBoard,
    NextBoardConfig { width: u16, height: u16, num_mines: u32 },
}

/// Where an outbound packet goes: to the connection that caused the
/// event, or to every live connection.
pub enum Outbound {
    Unicast(ServerToClientPacket),
    Broadcast(ServerToClientPacket),
}

/// The board dimensions to use at the next reset.
pub struct BoardConfig {
    pub width: u16,
    pub height: u16,
    pub num_mines: u32,
}

impl BoardConfig {
    /// A playable configuration.
    pub open spec fn valid(self) -> bool {
        &&& self.width >= 1
        &&& self.height >= 1
        &&& self.width <= 100
        &&& self.height <= 100
        &&& self.num_mines as int <= self.width as int * self.height as int
    }
}

/// The pending terminal-state snapshot, replayed to late joiners.
pub enum StateInfo {
    Ongoing,
    Lost { loser_id: u8, hit_mines: Vec<(u16, u16)>, wrong_flags: Vec<(u16, u16)> },
    Won,
}

/// Everything the event actor owns.
pub struct ServerState {
    pub board: MultiplayerBoard,
    pub players: PlayerList,
    pub config: BoardConfig,
    pub state_info: StateInfo,
    pub done_at: Option<u64>,
}

impl ServerState {
    /// Well-formedness: a well-formed board and registry, a playable
    /// pending configuration, a terminal timestamp whenever the board
    /// is finished, and a loss snapshot that fits its packet.
    pub open spec fn wf(self) -> bool {
        &&& self.board.wf()
        &&& self.players.wf()
        &&& self.config.valid()
        &&& ((self.board.board_state is Lost || self.board.board_state is Won) ==> self.done_at
            is Some)
        &&& (self.state_info matches StateInfo::Lost { hit_mines, .. } ==> hit_mines@.len() < 255)
    }

    /// A fresh server: a new hidden board built from `config`, an
    /// empty registry over the given word lists.
    pub fn new(config: BoardConfig, adjectives: Vec<String>, nouns: Vec<String>) -> (r:
        ServerState)
        requires
            config.valid(),
        ensures
            r.wf(),
            r.board.board_state is Uninitialized,
            r.board.width == config.width,
            r.board.height == config.height,
            r.board.num_mines == config.num_mines,
            r.players.entries@.len() == 0,
            r.config == config,
            r.state_info is Ongoing,
            r.done_at is None,
    {
        let board = MultiplayerBoard::new(config.width, config.height, config.num_mines);
        ServerState {
            board,
            players: PlayerList::new(adjectives, nouns),
            config,
            state_info: StateInfo::Ongoing,
            done_at: None,
        }
    }

    /// The sparse update records for a list of changed cells.
    fn sparse_updates(&self, changed: &Vec<(u16, u16)>) -> (updates: Vec<(u16, u16, u8, u8)>)
        requires
            self.board.wf(),
            forall|k: int|
                0 <= k < changed@.len() ==> (#[trigger] changed@[k]).0 < self.board.height
                    && changed@[k].1 < self.board.width,
        ensures
            updates@.len() == changed@.len(),
            forall|k: int|
                0 <= k < changed@.len() ==> #[trigger] updates@[k] == (
                    changed@[k].0,
                    changed@[k].1,
                    crate::encoding::spec_encode_entry(
                        self.board.rev_at(changed@[k].0 as int, changed@[k].1 as int),
                    ),
                    self.board.id_at(changed@[k].0 as int, changed@[k].1 as int),
                ),
    {
        let mut updates: Vec<(u16, u16, u8, u8)> = Vec::new();
        let mut k: usize = 0;
        while k < changed.len()
            invariant
                k <= changed@.len(),
                updates@.len() == k,
                self.board.wf(),
                forall|m: int|
                    0 <= m < changed@.len() ==> (#[trigger] changed@[m]).0 < self.board.height
                        && changed@[m].1 < self.board.width,
                forall|m: int|
                    0 <= m < k ==> #[trigger] updates@[m] == (
                        changed@[m].0,
                        changed@[m].1,
                        crate::encoding::spec_encode_entry(
                            self.board.rev_at(changed@[m].0 as int, changed@[m].1 as int),
                        ),
                        self.board.id_at(changed@[m].0 as int, changed@[m].1 as int),
                    ),
            decreases changed@.len() - k,
        {
            let c = changed[k];
            let entry = self.board.revealed_entry_at(c);
            let player_id = self.board.player_at(c);
            updates.push((c.0, c.1, encode_entry(&entry), player_id));
            k = k + 1;
        }
        updates
    }

    /// Every currently flagged cell that does not hide a mine.
    fn wrong_flags(&self) -> (out: Vec<(u16, u16)>)
        requires
            self.board.wf(),
            !(self.board.board_state is Uninitialized),
    {
        let mut out: Vec<(u16, u16)> = Vec::new();
        let mut i: u16 = 0;
        while i < self.board.height
            invariant
                self.board.wf(),
                !(self.board.board_state is Uninitialized),
                i <= self.board.height,
            decreases self.board.height - i,
        {
            let mut j: u16 = 0;
            while j < self.board.width
                invariant
                    self.board.wf(),
                    !(self.board.board_state is Uninitialized),
                    i < self.board.height,
                    j <= self.board.width,
                decreases self.board.width - j,
            {
                let coords = (i, j);
                if self.board.revealed_entry_at(coords).is_flagged() {
                    let te = match self.board.true_entry_at(coords) {
                        Some(te) => te,
                        None => vstd::pervasive::unreached(),
                    };
                    if !te.is_mine() {
                        out.push(coords);
                    }
                }
                j = j + 1;
            }
            i = i + 1;
        }
        out
    }

    /// The full-board snapshot packet for the current board: its
    /// dimensions, state, revealed layout and attribution grid.
    fn full_board_packet(&self) -> (p: ServerToClientPacket)
        requires
            self.board.wf_core(),
        ensures
            p matches ServerToClientPacket::FullBoard {
                width,
                height,
                num_mines,
                board_state,
                entries,
                player_ids,
            } && width == self.board.width && height == self.board.height && num_mines
                == self.board.num_mines && board_state == self.board.board_state
                && crate::board::gview(entries) == crate::board::gview(self.board.revealed_board)
                && crate::board::gview(player_ids) == crate::board::gview(self.board.player_ids),
    {
        ServerToClientPacket::FullBoard {
            width: self.board.width(),
            height: self.board.height(),
            num_mines: self.board.num_mines(),
            board_state: *self.board.board_state(),
            entries: clone_grid(self.board.revealed_board()),
            player_ids: clone_grid(self.board.player_ids()),
        }
    }

    /// Applies one inbound event, in receipt order, and returns the
    /// packets to deliver. Out-of-bounds coordinates are ignored
    /// silently; an invalid reconfiguration is dropped; a new board is
    /// granted only once the old one is finished and the minimum delay
    /// has passed.
    #[verifier::loop_isolation(false)]
    #[verifier::rlimit(100)]
    #[verifier::spinoff_prover]
    pub fn handle_event(&mut self, event: BoardEvent, addr_key: &String, now: u64) -> (out: Vec<
        Outbound,
    >)
        requires
            old(self).wf(),
        ensures
            final(self).wf(),
            (event matches BoardEvent::RevealSquare(c) && !old(self).board.coord_in_bounds(c))
                ==> (*final(self) == *old(self) && out@.len() == 0),
            (event matches BoardEvent::ChordSquare(c) && !old(self).board.coord_in_bounds(c)) ==> (
            *final(self) == *old(self) && out@.len() == 0),
            (event matches BoardEvent::ToggleFlagSquare(c) && !old(self).board.coord_in_bounds(c))
                ==> (*final(self) == *old(self) && out@.len() == 0),
            event matches BoardEvent::NextBoardConfig { width, height, num_mines } ==> ({
                let cfg = (BoardConfig { width, height, num_mines });
                &&& (!cfg.valid() ==> *final(self) == *old(self) && out@.len() == 0)
                &&& (cfg.valid() ==> final(self).config == cfg && final(self).board == old(self).board && final(self).players == old(self).players && final(self).done_at == old(self).done_at && final(self).state_info == old(self).state_info && out@.len() == 1 && (out@[0] matches Outbound::Broadcast(ServerToClientPacket::NextBoardConfig { width: pw, height: ph, num_mines: pm }) && pw == width && ph == height && pm == num_mines))
            }),
            (event is NewBoard && !(old(self).board.board_state is Lost || old(self).board.board_state is Won)) ==> (*final(self) == *old(self) && out@.len() == 0),
            (event is NewBoard && (old(self).board.board_state is Lost || old(self).board.board_state is Won) && (final(self).board.board_state is Uninitialized)) ==> (
            final(self).board.width == old(self).config.width && final(self).board.height == old(self).config.height && final(self).board.num_mines == old(self).config.num_mines && final(self).done_at is None && final(self).state_info is Ongoing && out@.len() == 1),
            (event is NewConnection) ==> final(self).players.has_addr(addr_key@),
            !(event is NewBoard) ==> final(self).board.width == old(self).board.width && final(self).board.height == old(self).board.height,
            forall|k: int|
                0 <= k < out@.len() ==> match #[trigger] out@[k] {
                    Outbound::Unicast(p) => sendable(p),
                    Outbound::Broadcast(p) => sendable(p),
                },
            (event matches BoardEvent::RevealSquare(c) && old(self).board.coord_in_bounds(c))
                ==> final(self).players.has_addr(addr_key@),
            (event matches BoardEvent::ChordSquare(c) && old(self).board.coord_in_bounds(c))
                ==> final(self).players.has_addr(addr_key@),
            (event matches BoardEvent::ToggleFlagSquare(c) && old(self).board.coord_in_bounds(c))
                ==> final(self).players.has_addr(addr_key@),
            event matches BoardEvent::RevealSquare(c) ==> ((old(self).board.coord_in_bounds(c)
                && (old(self).board.board_state is Ongoing || old(self).board.board_state
                is Uninitialized) && old(self).board.rev_at(c.0 as int, c.1 as int) is Unknown)
                ==> (!(final(self).board.rev_at(c.0 as int, c.1 as int) is Unknown) && out@.len()
                >= 1 && (out@[0] matches Outbound::Broadcast(ServerToClientPacket::SparseBoard {
                updates,
            }) && updates@.len() >= 1 && updates@[0].0 == c.0 && updates@[0].1 == c.1))),
            (!(old(self).board.board_state is Lost) && final(self).board.board_state is Lost)
                ==> (final(self).done_at == Some(now) && final(self).state_info is Lost
                && out@.len() == 2 && (out@[1] matches Outbound::Broadcast(
                ServerToClientPacket::BoardLoss { .. },
            ))),
            (!(old(self).board.board_state is Won) && final(self).board.board_state is Won) ==> (
            final(self).done_at == Some(now) && final(self).state_info is Won && out@.len() == 2
                && (out@[1] matches Outbound::Broadcast(ServerToClientPacket::BoardWin))),
            event matches BoardEvent::ToggleFlagSquare(c) ==> (old(self).board.coord_in_bounds(c)
                ==> ({
                let toggled = (old(self).board.board_state is Uninitialized || old(self).board.board_state is Ongoing) && old(self).board.rev_at(
                    c.0 as int,
                    c.1 as int,
                ) is Unknown;
                &&& (!toggled ==> final(self).board == old(self).board && out@.len() == 0)
                &&& (toggled ==> crate::board::gview(final(self).board.revealed_board)
                    == crate::board::flag_flip_rev(
                    crate::board::gview(old(self).board.revealed_board),
                    c.0 as int,
                    c.1 as int,
                ) && out@.len() == 1 && (out@[0] matches Outbound::Broadcast(
                    ServerToClientPacket::SparseBoard { updates },
                ) && updates@.len() == 1 && updates@[0].0 == c.0 && updates@[0].1 == c.1))
            })),
            event is NewBoard ==> ({
                let gate = (old(self).board.board_state is Lost || old(self).board.board_state
                    is Won) && (old(self).done_at matches Some(d) && now >= d && now - d
                    > MIN_DELAY_TILL_NEW_BOARD_MS);
                &&& (!gate ==> *final(self) == *old(self) && out@.len() == 0)
                &&& (gate ==> final(self).board.board_state is Uninitialized && final(self).board.width == old(self).config.width && final(self).board.height == old(self).config.height && final(self).board.num_mines == old(self).config.num_mines
                    && final(self).board.entries_cleared == 0 && final(self).done_at is None
                    && final(self).state_info is Ongoing && final(self).players == old(self).players && final(self).config == old(self).config && out@.len() == 1 && (
                out@[0] matches Outbound::Broadcast(ServerToClientPacket::FullBoard {
                    width,
                    ..
                }) && width == old(self).config.width))
            }),
            event is NewConnection ==> (out@.len() >= 4 && (out@[0] matches Outbound::Unicast(
                ServerToClientPacket::YourPlayerInfo { .. },
            )) && (out@[out@.len() - 1] matches Outbound::Broadcast(
                ServerToClientPacket::PlayerInfo { .. },
            )) && final(self).board == old(self).board && final(self).config == old(self).config),
    {
        match event {
            BoardEvent::RevealSquare(coords) | BoardEvent::ChordSquare(coords) => {
                if coords.0 >= self.board.height() || coords.1 >= self.board.width() {
                    return Vec::new();
                }
                self.players.construct_player(addr_key, now);
                let this_player_id = match self.players.keep_addr_alive(addr_key, now) {
                    Some(id) => id,
                    None => vstd::pervasive::unreached(),
                };
                let prev_state = *self.board.board_state();
                let is_reveal = match event {
                    BoardEvent::RevealSquare(_) => true,
                    _ => false,
                };
                let changed = if is_reveal {
                    self.board.reveal_square(coords, this_player_id)
                } else {
                    self.board.chord_square(coords, this_player_id)
                };
                let mut out: Vec<Outbound> = Vec::new();
                if changed.len() > 0 {
                    let updates = self.sparse_updates(&changed);
                    out.push(Outbound::Broadcast(ServerToClientPacket::SparseBoard { updates }));
                }
                let now_state = *self.board.board_state();
                if now_state == BoardState::Lost && prev_state != BoardState::Lost {
                    let wrong_flags = self.wrong_flags();
                    let hit_mines = changed;
                    proof {
                        assert(hit_mines@.len() < 255);
                    }
                    let wrong_flags2 = clone_coords(&wrong_flags);
                    let hit_mines2 = clone_coords(&hit_mines);
                    self.state_info = StateInfo::Lost {
                        loser_id: this_player_id,
                        hit_mines,
                        wrong_flags,
                    };
                    out.push(
                        Outbound::Broadcast(
                            ServerToClientPacket::BoardLoss {
                                loser_id: this_player_id,
                                hit_mines: hit_mines2,
                                wrong_flags: wrong_flags2,
                            },
                        ),
                    );
                    self.done_at = Some(now);
                } else if now_state == BoardState::Won && prev_state != BoardState::Won {
                    self.state_info = StateInfo::Won;
                    out.push(Outbound::Broadcast(ServerToClientPacket::BoardWin));
                    self.done_at = Some(now);
                }
                out
            },
            BoardEvent::ToggleFlagSquare(coords) => {
                if coords.0 >= self.board.height() || coords.1 >= self.board.width() {
                    return Vec::new();
                }
                self.players.construct_player(addr_key, now);
                let this_player_id = match self.players.keep_addr_alive(addr_key, now) {
                    Some(id) => id,
                    None => vstd::pervasive::unreached(),
                };
                let mut out: Vec<Outbound> = Vec::new();
                if self.board.toggle_flag_square(coords, this_player_id) {
                    let entry = self.board.revealed_entry_at(coords);
                    let player_id = self.board.player_at(coords);
                    let mut updates: Vec<(u16, u16, u8, u8)> = Vec::new();
                    updates.push((coords.0, coords.1, encode_entry(&entry), player_id));
                    out.push(Outbound::Broadcast(ServerToClientPacket::SparseBoard { updates }));
                }
                out
            },
            BoardEvent::NewConnection => {
                self.players.construct_player(addr_key, now);
                let (this_player_id, this_color, this_name) = match self.players.get_player(
                    addr_key,
                ) {
                    Some(p) => (p.id(), p.color(), p.name().to_owned()),
                    None => vstd::pervasive::unreached(),
                };
                let mut out: Vec<Outbound> = Vec::new();
                out.push(
                    Outbound::Unicast(
                        ServerToClientPacket::YourPlayerInfo {
                            player_id: this_player_id,
                            color: this_color,
                            name: this_name,
                        },
                    ),
                );
                let mut k: usize = 0;
                while k < self.players.entries.len()
                    invariant
                        self.players.wf(),
                        self.players.has_addr(addr_key@),
                        k <= self.players.entries@.len(),
                        out@.len() == 1 + k,
                        out@[0] matches Outbound::Unicast(
                            ServerToClientPacket::YourPlayerInfo { .. },
                        ),
                        forall|q: int|
                            0 <= q < out@.len() ==> match #[trigger] out@[q] {
                                Outbound::Unicast(p) => sendable(p),
                                Outbound::Broadcast(p) => sendable(p),
                            },
                    decreases self.players.entries@.len() - k,
                {
                    let p = &self.players.entries[k].player;
                    let packet = ServerToClientPacket::PlayerInfo {
                        player_id: p.id,
                        color: p.color,
                        name: p.name.clone(),
                    };
                    out.push(Outbound::Unicast(packet));
                    k = k + 1;
                }
                out.push(Outbound::Unicast(self.full_board_packet()));
                match &self.state_info {
                    StateInfo::Lost { loser_id, hit_mines, wrong_flags } => {
                        let packet = ServerToClientPacket::BoardLoss {
                            loser_id: *loser_id,
                            hit_mines: clone_coords(hit_mines),
                            wrong_flags: clone_coords(wrong_flags),
                        };
                        out.push(Outbound::Unicast(packet));
                    },
                    StateInfo::Won => {
                        out.push(Outbound::Unicast(ServerToClientPacket::BoardWin));
                    },
                    StateInfo::Ongoing => {},
                }
                out.push(
                    Outbound::Unicast(
                        ServerToClientPacket::NextBoardConfig {
                            width: self.config.width,
                            height: self.config.height,
                            num_mines: self.config.num_mines,
                        },
                    ),
                );
                let this_name2 = match self.players.get_player(addr_key) {
                    Some(p) => p.name().to_owned(),
                    None => vstd::pervasive::unreached(),
                };
                out.push(
                    Outbound::Broadcast(
                        ServerToClientPacket::PlayerInfo {
                            player_id: this_player_id,
                            color: this_color,
                            name: this_name2,
                        },
                    ),
                );
                out
            },
            BoardEvent::NewBoard => {
                let st = *self.board.board_state();
                if st == BoardState::Lost || st == BoardState::Won {
                    let done = match self.done_at {
                        Some(d) => d,
                        None => vstd::pervasive::unreached(),
                    };
                    if now >= done && now - done > MIN_DELAY_TILL_NEW_BOARD_MS {
                        self.board = MultiplayerBoard::new(
                            self.config.width,
                            self.config.height,
                            self.config.num_mines,
                        );
                        self.done_at = None;
                        self.state_info = StateInfo::Ongoing;
                        let mut out: Vec<Outbound> = Vec::new();
                        out.push(Outbound::Broadcast(self.full_board_packet()));
                        out
                    } else {
                        Vec::new()
                    }
                } else {
                    Vec::new()
                }
            },
            BoardEvent::NextBoardConfig { width, height, num_mines } => {
                if MultiplayerBoard::possible_config(width, height, num_mines) {
                    self.config = BoardConfig { width, height, num_mines };
                    let mut out: Vec<Outbound> = Vec::new();
                    out.push(
                        Outbound::Broadcast(
                            ServerToClientPacket::NextBoardConfig { width, height, num_mines },
                        ),
                    );
                    out
                } else {
                    Vec::new()
                }
            },
        }
    }
}

/// A copy of a grid of rows, cell for cell.
fn clone_grid<T: Copy>(g: &Vec<Vec<T>>) -> (r: Vec<Vec<T>>)
    ensures
        crate::board::gview(r) == crate::board::gview(*g),
{
    let mut r: Vec<Vec<T>> = Vec::new();
    let mut i: usize = 0;
    while i < g.len()
        invariant
            i <= g@.len(),
            r@.len() == i,
            forall|k: int| 0 <= k < i as int ==> (#[trigger] r@[k])@ == g@[k]@,
        decreases g@.len() - i,
    {
        let row = &g[i];
        let mut nr: Vec<T> = Vec::new();
        let mut j: usize = 0;
        while j < row.len()
            invariant
                j <= row@.len(),
                nr@ =~= row@.subrange(0, j as int),
            decreases row@.len() - j,
        {
            nr.push(row[j]);
            proof {
                assert(nr@ =~= row@.subrange(0, j as int + 1));
            }
            j = j + 1;
        }
        proof {
            assert(nr@ =~= row@);
        }
        r.push(nr);
        i = i + 1;
    }
    proof {
        assert(crate::board::gview(r) =~~= crate::board::gview(*g));
    }
    r
}

/// A copy of a coordinate list.
fn clone_coords(v: &Vec<(u16, u16)>) -> (r: Vec<(u16, u16)>)
    ensures
        r@ == v@,
{
    let mut r: Vec<(u16, u16)> = Vec::new();
    let mut k: usize = 0;
    while k < v.len()
        invariant
            k <= v@.len(),
            r@ =~= v@.subrange(0, k as int),
        decreases v@.len() - k,
    {
        r.push(v[k]);
        proof {
            assert(r@ =~= v@.subrange(0, k as int + 1));
        }
        k = k + 1;
    }
    proof {
        assert(v@.subrange(0, v@.len() as int) =~= v@);
    }
    r
}

} // verus!
