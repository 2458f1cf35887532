//! Wire codec: the little-endian binary protocol between clients and
//! the server. Stateless; malformed frames are rejected whole.
use vstd::prelude::*;

use crate::board;

verus! {

/// Little-endian bytes of a u16.
pub open spec fn u16_le(x: u16) -> Seq<u8> {
    seq![(x & 0xff) as u8, ((x >> 8) & 0xff) as u8]
}

/// The u16 read back from two little-endian bytes.
pub open spec fn u16_of(lo: u8, hi: u8) -> u16 {
    (lo as u16) | ((hi as u16) << 8)
}

/// Little-endian bytes of a u32.
pub open spec fn u32_le(x: u32) -> Seq<u8> {
    seq![
        (x & 0xff) as u8,
        ((x >> 8) & 0xff) as u8,
        ((x >> 16) & 0xff) as u8,
        ((x >> 24) & 0xff) as u8,
    ]
}

/// The u32 read back from four little-endian bytes.
pub open spec fn u32_of(b0: u8, b1: u8, b2: u8, b3: u8) -> u32 {
    (b0 as u32) | ((b1 as u32) << 8) | ((b2 as u32) << 16) | ((b3 as u32) << 24)
}

/// Reading back the two little-endian bytes of a u16 restores it.
pub proof fn lemma_u16_round_trip(x: u16)
    ensures
        u16_of((x & 0xff) as u8, ((x >> 8) & 0xff) as u8) == x,
{
    assert((((x & 0xff) as u8) as u16) | (((((x >> 8) & 0xff) as u8) as u16) << 8) == x)
        by (bit_vector);
}

/// Reading back the four little-endian bytes of a u32 restores it.
pub proof fn lemma_u32_round_trip(x: u32)
    ensures
        u32_of(
            (x & 0xff) as u8,
            ((x >> 8) & 0xff) as u8,
            ((x >> 16) & 0xff) as u8,
            ((x >> 24) & 0xff) as u8,
        ) == x,
{
    assert((((x & 0xff) as u8) as u32) | (((((x >> 8) & 0xff) as u8) as u32) << 8) | (((((x >> 16)
        & 0xff) as u8) as u32) << 16) | (((((x >> 24) & 0xff) as u8) as u32) << 24) == x)
        by (bit_vector);
}

/// An action sent by a client.
#[derive(Debug, PartialEq, Eq, Clone, Copy)]
pub enum ClientToServerPacket {
    RevealSquare((u16, u16)),
    ToggleFlagSquare((u16, u16)),
    ChordSquare((u16, u16)),
    NewBoard,
    NextBoardConfig { width: u16, height: u16, num_mines: u32 },
}

/// The frame that carries a client action.
pub open spec fn spec_encode_client(p: ClientToServerPacket) -> Seq<u8> {
    match p {
        ClientToServerPacket::RevealSquare(c) => seq![0u8] + u16_le(c.0) + u16_le(c.1),
        ClientToServerPacket::ChordSquare(c) => seq![1u8] + u16_le(c.0) + u16_le(c.1),
        ClientToServerPacket::ToggleFlagSquare(c) => seq![2u8] + u16_le(c.0) + u16_le(c.1),
        ClientToServerPacket::NewBoard => seq![3u8],
        ClientToServerPacket::NextBoardConfig { width, height, num_mines } => seq![4u8] + u16_le(
            width,
        ) + u16_le(height) + u32_le(num_mines),
    }
}

/// The action a frame decodes to, or nothing when the frame is
/// malformed: wrong length for its tag, or an unknown tag.
pub open spec fn spec_decode_client(b: Seq<u8>) -> Option<ClientToServerPacket> {
    if b.len() < 1 {
        None
    } else if b[0] == 0 {
        if b.len() == 5 {
            Some(ClientToServerPacket::RevealSquare((u16_of(b[1], b[2]), u16_of(b[3], b[4]))))
        } else {
            None
        }
    } else if b[0] == 1 {
        if b.len() == 5 {
            Some(ClientToServerPacket::ChordSquare((u16_of(b[1], b[2]), u16_of(b[3], b[4]))))
        } else {
            None
        }
    } else if b[0] == 2 {
        if b.len() == 5 {
            Some(ClientToServerPacket::ToggleFlagSquare((u16_of(b[1], b[2]), u16_of(b[3], b[4]))))
        } else {
            None
        }
    } else if b[0] == 3 {
        if b.len() == 1 {
            Some(ClientToServerPacket::NewBoard)
        } else {
            None
        }
    } else if b[0] == 4 {
        if b.len() == 9 {
            Some(
                ClientToServerPacket::NextBoardConfig {
                    width: u16_of(b[1], b[2]),
                    height: u16_of(b[3], b[4]),
                    num_mines: u32_of(b[5], b[6], b[7], b[8]),
                },
            )
        } else {
            None
        }
    } else {
        None
    }
}

/// Decoding the frame a client action encodes to restores the action.
pub proof fn lemma_client_round_trip(p: ClientToServerPacket)
    ensures
        spec_decode_client(spec_encode_client(p)) == Some(p),
{
    let b = spec_encode_client(p);
    match p {
        ClientToServerPacket::RevealSquare(c) => {
            lemma_u16_round_trip(c.0);
            lemma_u16_round_trip(c.1);
        },
        ClientToServerPacket::ChordSquare(c) => {
            lemma_u16_round_trip(c.0);
            lemma_u16_round_trip(c.1);
        },
        ClientToServerPacket::ToggleFlagSquare(c) => {
            lemma_u16_round_trip(c.0);
            lemma_u16_round_trip(c.1);
        },
        ClientToServerPacket::NewBoard => {},
        ClientToServerPacket::NextBoardConfig { width, height, num_mines } => {
            lemma_u16_round_trip(width);
            lemma_u16_round_trip(height);
            lemma_u32_round_trip(num_mines);
        },
    }
}

impl ClientToServerPacket {
    /// Total decoder: returns exactly what the frame means, or an
    /// error on any malformed frame, and never panics.
    pub fn decode(bytes: &[u8]) -> (r: Result<ClientToServerPacket, ()>)
        ensures
            match r {
                Ok(p) => spec_decode_client(bytes@) == Some(p),
                Err(_) => spec_decode_client(bytes@) is None,
            },
    {
        if bytes.len() < 1 {
            return Err(());
        }
        let packet_type = *vstd::slice::slice_index_get(bytes, 0);
        match packet_type {
            0 => {
                if bytes.len() != 5 {
                    Err(())
                } else {
                    let i = read_u16(bytes, 1);
                    let j = read_u16(bytes, 3);
                    Ok(ClientToServerPacket::RevealSquare((i, j)))
                }
            },
            1 => {
                if bytes.len() != 5 {
                    Err(())
                } else {
                    let i = read_u16(bytes, 1);
                    let j = read_u16(bytes, 3);
                    Ok(ClientToServerPacket::ChordSquare((i, j)))
                }
            },
            2 => {
                if bytes.len() != 5 {
                    Err(())
                } else {
                    let i = read_u16(bytes, 1);
                    let j = read_u16(bytes, 3);
                    Ok(ClientToServerPacket::ToggleFlagSquare((i, j)))
                }
            },
            3 => {
                if bytes.len() != 1 {
                    Err(())
                } else {
                    Ok(ClientToServerPacket::NewBoard)
                }
            },
            4 => {
                if bytes.len() != 9 {
                    Err(())
                } else {
                    let width = read_u16(bytes, 1);
                    let height = read_u16(bytes, 3);
                    let num_mines = read_u32(bytes, 5);
                    Ok(ClientToServerPacket::NextBoardConfig { width, height, num_mines })
                }
            },
            _ => Err(()),
        }
    }
}

/// The u16 stored little-endian at offset `at`.
fn read_u16(bytes: &[u8], at: usize) -> (x: u16)
    requires
        at + 2 <= bytes@.len(),
    ensures
        x == u16_of(bytes@[at as int], bytes@[at as int + 1]),
{
    let n = bytes.len();
    let lo = *vstd::slice::slice_index_get(bytes, at);
    let hi = *vstd::slice::slice_index_get(bytes, at + 1);
    (lo as u16) | ((hi as u16) << 8)
}

/// The u32 stored little-endian at offset `at`.
fn read_u32(bytes: &[u8], at: usize) -> (x: u32)
    requires
        at + 4 <= bytes@.len(),
    ensures
        x == u32_of(
            bytes@[at as int],
            bytes@[at as int + 1],
            bytes@[at as int + 2],
            bytes@[at as int + 3],
        ),
{
    let n = bytes.len();
    let b0 = *vstd::slice::slice_index_get(bytes, at);
    let b1 = *vstd::slice::slice_index_get(bytes, at + 1);
    let b2 = *vstd::slice::slice_index_get(bytes, at + 2);
    let b3 = *vstd::slice::slice_index_get(bytes, at + 3);
    (b0 as u32) | ((b1 as u32) << 8) | ((b2 as u32) << 16) | ((b3 as u32) << 24)
}

/// Appends the little-endian bytes of a u16.
fn push_u16(bytes: &mut Vec<u8>, x: u16)
    ensures
        final(bytes)@ == old(bytes)@ + u16_le(x),
{
    bytes.push((x & 0xff) as u8);
    bytes.push(((x >> 8) & 0xff) as u8);
    proof {
        assert(bytes@ =~= old(bytes)@ + u16_le(x));
    }
}

/// Appends the little-endian bytes of a u32.
fn push_u32(bytes: &mut Vec<u8>, x: u32)
    ensures
        final(bytes)@ == old(bytes)@ + u32_le(x),
{
    bytes.push((x & 0xff) as u8);
    bytes.push(((x >> 8) & 0xff) as u8);
    bytes.push(((x >> 16) & 0xff) as u8);
    bytes.push(((x >> 24) & 0xff) as u8);
    proof {
        assert(bytes@ =~= old(bytes)@ + u32_le(x));
    }
}

/// The byte a cell is sent as: the adjacent-mine count for revealed
/// cells, 253 hidden, 254 flagged, 255 a disclosed mine.
pub open spec fn spec_encode_entry(e: board::Entry) -> u8 {
    match e {
        board::Entry::Unknown { flagged } => if flagged {
            254
        } else {
            253
        },
        board::Entry::Mine => 255,
        board::Entry::Revealed { num_mines } => num_mines,
    }
}

/// The byte a board state is sent as.
pub open spec fn state_byte(s: board::BoardState) -> u8 {
    match s {
        board::BoardState::Uninitialized => 1,
        board::BoardState::Ongoing => 1,
        board::BoardState::Lost => 2,
        board::BoardState::Won => 3,
    }
}

/// Entry bytes of one row, left to right.
pub open spec fn row_entry_bytes(row: Seq<board::Entry>) -> Seq<u8>
    decreases row.len(),
{
    if row.len() == 0 {
        Seq::empty()
    } else {
        row_entry_bytes(row.drop_last()).push(spec_encode_entry(row.last()))
    }
}

/// Entry bytes of a whole grid, row-major.
pub open spec fn grid_entry_bytes(g: Seq<Seq<board::Entry>>) -> Seq<u8>
    decreases g.len(),
{
    if g.len() == 0 {
        Seq::empty()
    } else {
        grid_entry_bytes(g.drop_last()) + row_entry_bytes(g.last())
    }
}

/// Attribution bytes of a whole grid, row-major.
pub open spec fn grid_id_bytes(g: Seq<Seq<u8>>) -> Seq<u8>
    decreases g.len(),
{
    if g.len() == 0 {
        Seq::empty()
    } else {
        grid_id_bytes(g.drop_last()) + g.last()
    }
}

/// The byte run of a coordinate list: two little-endian u16 each.
pub open spec fn coords_bytes(s: Seq<(u16, u16)>) -> Seq<u8>
    decreases s.len(),
{
    if s.len() == 0 {
        Seq::empty()
    } else {
        coords_bytes(s.drop_last()) + u16_le(s.last().0) + u16_le(s.last().1)
    }
}

/// The byte run of a sparse update list: coordinate, entry byte and
/// attribution byte per record.
pub open spec fn updates_bytes(s: Seq<(u16, u16, u8, u8)>) -> Seq<u8>
    decreases s.len(),
{
    if s.len() == 0 {
        Seq::empty()
    } else {
        updates_bytes(s.drop_last()) + u16_le(s.last().0) + u16_le(s.last().1) + seq![
            s.last().2,
            s.last().3,
        ]
    }
}

/// A packet sent to clients.
#[derive(Debug)]
pub enum ServerToClientPacket {
    FullBoard {
        width: u16,
        height: u16,
        num_mines: u32,
        board_state: board::BoardState,
        entries: Vec<Vec<board::Entry>>,
        player_ids: Vec<Vec<u8>>,
    },
    SparseBoard { updates: Vec<(u16, u16, u8, u8)> },
    PlayerInfo { player_id: u8, color: (u8, u8, u8, u8), name: String },
    YourPlayerInfo { player_id: u8, color: (u8, u8, u8, u8), name: String },
    BoardLoss { loser_id: u8, hit_mines: Vec<(u16, u16)>, wrong_flags: Vec<(u16, u16)> },
    BoardWin,
    NextBoardConfig { width: u16, height: u16, num_mines: u32 },
}

/// The frame that carries a server packet.
pub open spec fn spec_encode_server(p: ServerToClientPacket) -> Seq<u8> {
    match p {
        ServerToClientPacket::FullBoard { width, height, num_mines, board_state, entries, player_ids } => seq![
            0u8,
        ] + u16_le(width) + u16_le(height) + u32_le(num_mines) + seq![state_byte(board_state)]
            + grid_entry_bytes(board::gview(entries)) + grid_id_bytes(board::gview(player_ids)),
        ServerToClientPacket::SparseBoard { updates } => seq![1u8] + updates_bytes(updates@),
        ServerToClientPacket::PlayerInfo { player_id, color, name } => seq![
            2u8,
            player_id,
            color.0,
            color.1,
            color.2,
            color.3,
        ] + vstd::utf8::encode_utf8(name@),
        ServerToClientPacket::YourPlayerInfo { player_id, color, name } => seq![
            3u8,
            player_id,
            color.0,
            color.1,
            color.2,
            color.3,
        ] + vstd::utf8::encode_utf8(name@),
        ServerToClientPacket::BoardLoss { loser_id, hit_mines, wrong_flags } => seq![
            4u8,
            loser_id,
            hit_mines@.len() as u8,
        ] + coords_bytes(hit_mines@) + coords_bytes(wrong_flags@),
        ServerToClientPacket::BoardWin => seq![5u8],
        ServerToClientPacket::NextBoardConfig { width, height, num_mines } => seq![6u8] + u16_le(
            width,
        ) + u16_le(height) + u32_le(num_mines),
    }
}

/// Appends the entry bytes of every row of a grid.
fn push_entry_grid(bytes: &mut Vec<u8>, g: &Vec<Vec<board::Entry>>)
    ensures
        final(bytes)@ == old(bytes)@ + grid_entry_bytes(board::gview(*g)),
{
    let gv = Ghost(board::gview(*g));
    let mut i: usize = 0;
    while i < g.len()
        invariant
            i <= g@.len(),
            gv@ == board::gview(*g),
            gv@.len() == g@.len(),
            bytes@ =~= old(bytes)@ + grid_entry_bytes(gv@.subrange(0, i as int)),
        decreases g@.len() - i,
    {
        let row = &g[i];
        proof {
            assert(gv@[i as int] == g@[i as int]@);
        }
        let mut j: usize = 0;
        while j < row.len()
            invariant
                j <= row@.len(),
                gv@ == board::gview(*g),
                gv@.len() == g@.len(),
                i < g@.len(),
                row@ == g@[i as int]@,
                bytes@ =~= old(bytes)@ + grid_entry_bytes(gv@.subrange(0, i as int))
                    + row_entry_bytes(row@.subrange(0, j as int)),
            decreases row@.len() - j,
        {
            bytes.push(encode_entry(&row[j]));
            proof {
                assert(row@.subrange(0, j as int + 1).drop_last() =~= row@.subrange(0, j as int));
                assert(row@.subrange(0, j as int + 1).last() == row@[j as int]);
                assert(bytes@ =~= old(bytes)@ + grid_entry_bytes(gv@.subrange(0, i as int))
                    + row_entry_bytes(row@.subrange(0, j as int + 1)));
            }
            j = j + 1;
        }
        proof {
            assert(row@.subrange(0, row@.len() as int) =~= row@);
            assert(gv@.subrange(0, i as int + 1).drop_last() =~= gv@.subrange(0, i as int));
            assert(gv@.subrange(0, i as int + 1).last() == gv@[i as int]);
            assert(bytes@ =~= old(bytes)@ + grid_entry_bytes(gv@.subrange(0, i as int + 1)));
        }
        i = i + 1;
    }
    proof {
        assert(gv@.subrange(0, gv@.len() as int) =~= gv@);
    }
}

/// Appends the attribution bytes of every row of a grid.
fn push_id_grid(bytes: &mut Vec<u8>, g: &Vec<Vec<u8>>)
    ensures
        final(bytes)@ == old(bytes)@ + grid_id_bytes(board::gview(*g)),
{
    let gv = Ghost(board::gview(*g));
    let mut i: usize = 0;
    while i < g.len()
        invariant
            i <= g@.len(),
            gv@ == board::gview(*g),
            gv@.len() == g@.len(),
            bytes@ =~= old(bytes)@ + grid_id_bytes(gv@.subrange(0, i as int)),
        decreases g@.len() - i,
    {
        let row = &g[i];
        proof {
            assert(gv@[i as int] == g@[i as int]@);
        }
        let mut j: usize = 0;
        while j < row.len()
            invariant
                j <= row@.len(),
                gv@ == board::gview(*g),
                gv@.len() == g@.len(),
                i < g@.len(),
                row@ == g@[i as int]@,
                bytes@ =~= old(bytes)@ + grid_id_bytes(gv@.subrange(0, i as int)) + row@.subrange(
                    0,
                    j as int,
                ),
            decreases row@.len() - j,
        {
            bytes.push(row[j]);
            proof {
                assert(bytes@ =~= old(bytes)@ + grid_id_bytes(gv@.subrange(0, i as int))
                    + row@.subrange(0, j as int + 1));
            }
            j = j + 1;
        }
        proof {
            assert(row@.subrange(0, row@.len() as int) =~= row@);
            assert(gv@.subrange(0, i as int + 1).drop_last() =~= gv@.subrange(0, i as int));
            assert(gv@.subrange(0, i as int + 1).last() == gv@[i as int]);
            assert(bytes@ =~= old(bytes)@ + grid_id_bytes(gv@.subrange(0, i as int + 1)));
        }
        i = i + 1;
    }
    proof {
        assert(gv@.subrange(0, gv@.len() as int) =~= gv@);
    }
}

/// Appends a coordinate list.
fn push_coords(bytes: &mut Vec<u8>, v: &Vec<(u16, u16)>)
    ensures
        final(bytes)@ == old(bytes)@ + coords_bytes(v@),
{
    let mut k: usize = 0;
    while k < v.len()
        invariant
            k <= v@.len(),
            bytes@ =~= old(bytes)@ + coords_bytes(v@.subrange(0, k as int)),
        decreases v@.len() - k,
    {
        let c = v[k];
        push_u16(bytes, c.0);
        push_u16(bytes, c.1);
        proof {
            assert(v@.subrange(0, k as int + 1).drop_last() =~= v@.subrange(0, k as int));
            assert(v@.subrange(0, k as int + 1).last() == v@[k as int]);
            assert(bytes@ =~= old(bytes)@ + coords_bytes(v@.subrange(0, k as int + 1)));
        }
        k = k + 1;
    }
    proof {
        assert(v@.subrange(0, v@.len() as int) =~= v@);
    }
}

/// Appends a sparse update list.
fn push_updates(bytes: &mut Vec<u8>, v: &Vec<(u16, u16, u8, u8)>)
    ensures
        final(bytes)@ == old(bytes)@ + updates_bytes(v@),
{
    let mut k: usize = 0;
    while k < v.len()
        invariant
            k <= v@.len(),
            bytes@ =~= old(bytes)@ + updates_bytes(v@.subrange(0, k as int)),
        decreases v@.len() - k,
    {
        let u = v[k];
        push_u16(bytes, u.0);
        push_u16(bytes, u.1);
        bytes.push(u.2);
        bytes.push(u.3);
        proof {
            assert(v@.subrange(0, k as int + 1).drop_last() =~= v@.subrange(0, k as int));
            assert(v@.subrange(0, k as int + 1).last() == v@[k as int]);
            assert(bytes@ =~= old(bytes)@ + updates_bytes(v@.subrange(0, k as int + 1)));
        }
        k = k + 1;
    }
    proof {
        assert(v@.subrange(0, v@.len() as int) =~= v@);
    }
}

/// Whether a packet fits its frame: a loss packet carries its
/// hit-mine count in one byte, so it must hold fewer than 255 hit
/// mines; every other packet always fits.
pub open spec fn sendable(p: ServerToClientPacket) -> bool {
    p matches ServerToClientPacket::BoardLoss { hit_mines, .. } ==> hit_mines@.len() < 255
}

impl ServerToClientPacket {
    /// Encodes the packet exactly as the protocol lays it out. A loss
    /// packet carries its hit-mine count in one byte, so it must hold
    /// fewer than 255 hit mines.
    pub fn encode(&self) -> (bytes: Vec<u8>)
        requires
            sendable(*self),
        ensures
            bytes@ == spec_encode_server(*self),
    {
        let mut bytes: Vec<u8> = Vec::new();
        match self {
            ServerToClientPacket::FullBoard {
                width,
                height,
                num_mines,
                board_state,
                entries,
                player_ids,
            } => {
                bytes.push(0);
                push_u16(&mut bytes, *width);
                push_u16(&mut bytes, *height);
                push_u32(&mut bytes, *num_mines);
                match board_state {
                    board::BoardState::Uninitialized | board::BoardState::Ongoing => {
                        bytes.push(1);
                    },
                    board::BoardState::Lost => {
                        bytes.push(2);
                    },
                    board::BoardState::Won => {
                        bytes.push(3);
                    },
                }
                push_entry_grid(&mut bytes, entries);
                push_id_grid(&mut bytes, player_ids);
                proof {
                    assert(bytes@ =~= spec_encode_server(*self));
                }
            },
            ServerToClientPacket::SparseBoard { updates } => {
                bytes.push(1);
                push_updates(&mut bytes, updates);
                proof {
                    assert(bytes@ =~= spec_encode_server(*self));
                }
            },
            ServerToClientPacket::PlayerInfo { player_id, color, name } => {
                bytes.push(2);
                bytes.push(*player_id);
                bytes.push(color.0);
                bytes.push(color.1);
                bytes.push(color.2);
                bytes.push(color.3);
                bytes.extend_from_slice(name.as_str().as_bytes());
                proof {
                    assert(bytes@ =~= spec_encode_server(*self));
                }
            },
            ServerToClientPacket::YourPlayerInfo { player_id, color, name } => {
                bytes.push(3);
                bytes.push(*player_id);
                bytes.push(color.0);
                bytes.push(color.1);
                bytes.push(color.2);
                bytes.push(color.3);
                bytes.extend_from_slice(name.as_str().as_bytes());
                proof {
                    assert(bytes@ =~= spec_encode_server(*self));
                }
            },
            ServerToClientPacket::BoardLoss { loser_id, hit_mines, wrong_flags } => {
                bytes.push(4);
                bytes.push(*loser_id);
                bytes.push(hit_mines.len() as u8);
                push_coords(&mut bytes, hit_mines);
                push_coords(&mut bytes, wrong_flags);
                proof {
                    assert(bytes@ =~= spec_encode_server(*self));
                }
            },
            ServerToClientPacket::BoardWin => {
                bytes.push(5);
                proof {
                    assert(bytes@ =~= spec_encode_server(*self));
                }
            },
            ServerToClientPacket::NextBoardConfig { width, height, num_mines } => {
                bytes.push(6);
                push_u16(&mut bytes, *width);
                push_u16(&mut bytes, *height);
                push_u32(&mut bytes, *num_mines);
                proof {
                    assert(bytes@ =~= spec_encode_server(*self));
                }
            },
        }
        bytes
    }
}

/// The mathematical content of a server packet: grids, lists and
/// names as sequences.
pub enum ServerPacketView {
    FullBoard {
        width: u16,
        height: u16,
        num_mines: u32,
        board_state: board::BoardState,
        entries: Seq<Seq<board::Entry>>,
        player_ids: Seq<Seq<u8>>,
    },
    SparseBoard { updates: Seq<(u16, u16, u8, u8)> },
    PlayerInfo { player_id: u8, color: (u8, u8, u8, u8), name: Seq<char> },
    YourPlayerInfo { player_id: u8, color: (u8, u8, u8, u8), name: Seq<char> },
    BoardLoss { loser_id: u8, hit_mines: Seq<(u16, u16)>, wrong_flags: Seq<(u16, u16)> },
    BoardWin,
    NextBoardConfig { width: u16, height: u16, num_mines: u32 },
}

/// What a server packet value stands for.
pub open spec fn packet_view(p: ServerToClientPacket) -> ServerPacketView {
    match p {
        ServerToClientPacket::FullBoard { width, height, num_mines, board_state, entries, player_ids } => ServerPacketView::FullBoard {
            width,
            height,
            num_mines,
            board_state,
            entries: board::gview(entries),
            player_ids: board::gview(player_ids),
        },
        ServerToClientPacket::SparseBoard { updates } => ServerPacketView::SparseBoard {
            updates: updates@,
        },
        ServerToClientPacket::PlayerInfo { player_id, color, name } => ServerPacketView::PlayerInfo {
            player_id,
            color,
            name: name@,
        },
        ServerToClientPacket::YourPlayerInfo { player_id, color, name } => ServerPacketView::YourPlayerInfo {
            player_id,
            color,
            name: name@,
        },
        ServerToClientPacket::BoardLoss { loser_id, hit_mines, wrong_flags } => ServerPacketView::BoardLoss {
            loser_id,
            hit_mines: hit_mines@,
            wrong_flags: wrong_flags@,
        },
        ServerToClientPacket::BoardWin => ServerPacketView::BoardWin,
        ServerToClientPacket::NextBoardConfig { width, height, num_mines } => ServerPacketView::NextBoardConfig {
            width,
            height,
            num_mines,
        },
    }
}

/// The cell a wire byte decodes to; bytes 9 to 252 are unused.
pub open spec fn spec_decode_entry(b: u8) -> Option<board::Entry> {
    if b == 253 {
        Some(board::Entry::Unknown { flagged: false })
    } else if b == 254 {
        Some(board::Entry::Unknown { flagged: true })
    } else if b == 255 {
        Some(board::Entry::Mine)
    } else if b <= 8 {
        Some(board::Entry::Revealed { num_mines: b })
    } else {
        None
    }
}

/// The board state a wire byte decodes to. A fresh board is sent as
/// ongoing, so state byte 1 reads back as `Ongoing`.
pub open spec fn spec_decode_state(b: u8) -> Option<board::BoardState> {
    if b == 1 {
        Some(board::BoardState::Ongoing)
    } else if b == 2 {
        Some(board::BoardState::Lost)
    } else if b == 3 {
        Some(board::BoardState::Won)
    } else {
        None
    }
}

/// The coordinate list stored in a run of 4-byte records.
pub open spec fn coords_of(s: Seq<u8>) -> Seq<(u16, u16)> {
    Seq::new((s.len() / 4) as nat, |k: int| (u16_of(s[4 * k], s[4 * k + 1]), u16_of(s[4 * k + 2], s[4 * k + 3])))
}

/// The update list stored in a run of 6-byte records.
pub open spec fn updates_of(s: Seq<u8>) -> Seq<(u16, u16, u8, u8)> {
    Seq::new(
        (s.len() / 6) as nat,
        |k: int| (u16_of(s[6 * k], s[6 * k + 1]), u16_of(s[6 * k + 2], s[6 * k + 3]), s[6 * k + 4], s[6 * k + 5]),
    )
}

/// Whether every byte of a grid run is a valid cell byte.
pub open spec fn grid_bytes_ok(s: Seq<u8>) -> bool {
    forall|k: int| 0 <= k < s.len() ==> spec_decode_entry(#[trigger] s[k]) is Some
}

/// The `h` x `w` cell grid stored in a row-major byte run.
pub open spec fn grid_of(s: Seq<u8>, h: int, w: int) -> Seq<Seq<board::Entry>> {
    Seq::new(h as nat, |i: int| Seq::new(w as nat, |j: int| spec_decode_entry(s[i * w + j]).unwrap()))
}

/// The `h` x `w` attribution grid stored in a row-major byte run.
pub open spec fn id_grid_of(s: Seq<u8>, h: int, w: int) -> Seq<Seq<u8>> {
    Seq::new(h as nat, |i: int| Seq::new(w as nat, |j: int| s[i * w + j]))
}

/// The packet a server frame decodes to, or nothing when the frame is
/// malformed.
pub open spec fn spec_decode_server(b: Seq<u8>) -> Option<ServerPacketView> {
    if b.len() < 1 {
        None
    } else if b[0] == 0 {
        if b.len() >= 10 {
            let width = u16_of(b[1], b[2]);
            let height = u16_of(b[3], b[4]);
            let num_mines = u32_of(b[5], b[6], b[7], b[8]);
            let cells = width as int * height as int;
            if b.len() == 10 + 2 * cells && spec_decode_state(b[9]) is Some && grid_bytes_ok(
                b.subrange(10, 10 + cells),
            ) {
                Some(
                    ServerPacketView::FullBoard {
                        width,
                        height,
                        num_mines,
                        board_state: spec_decode_state(b[9]).unwrap(),
                        entries: grid_of(b.subrange(10, 10 + cells), height as int, width as int),
                        player_ids: id_grid_of(
                            b.subrange(10 + cells, 10 + 2 * cells),
                            height as int,
                            width as int,
                        ),
                    },
                )
            } else {
                None
            }
        } else {
            None
        }
    } else if b[0] == 1 {
        if (b.len() - 1) % 6 == 0 {
            Some(ServerPacketView::SparseBoard { updates: updates_of(b.subrange(1, b.len() as int)) })
        } else {
            None
        }
    } else if b[0] == 2 || b[0] == 3 {
        if b.len() >= 6 && vstd::utf8::valid_utf8(b.subrange(6, b.len() as int)) {
            let name = vstd::utf8::decode_utf8(b.subrange(6, b.len() as int));
            let color = (b[2], b[3], b[4], b[5]);
            if b[0] == 2 {
                Some(ServerPacketView::PlayerInfo { player_id: b[1], color, name })
            } else {
                Some(ServerPacketView::YourPlayerInfo { player_id: b[1], color, name })
            }
        } else {
            None
        }
    } else if b[0] == 4 {
        if b.len() >= 3 && (b.len() - 3) % 4 == 0 && 3 + 4 * (b[2] as int) <= b.len() {
            Some(
                ServerPacketView::BoardLoss {
                    loser_id: b[1],
                    hit_mines: coords_of(b.subrange(3, 3 + 4 * (b[2] as int))),
                    wrong_flags: coords_of(b.subrange(3 + 4 * (b[2] as int), b.len() as int)),
                },
            )
        } else {
            None
        }
    } else if b[0] == 5 {
        if b.len() == 1 {
            Some(ServerPacketView::BoardWin)
        } else {
            None
        }
    } else if b[0] == 6 {
        if b.len() == 9 {
            Some(
                ServerPacketView::NextBoardConfig {
                    width: u16_of(b[1], b[2]),
                    height: u16_of(b[3], b[4]),
                    num_mines: u32_of(b[5], b[6], b[7], b[8]),
                },
            )
        } else {
            None
        }
    } else {
        None
    }
}

/// Byte-level layout of an encoded coordinate list.
proof fn lemma_coords_bytes_index(v: Seq<(u16, u16)>)
    ensures
        coords_bytes(v).len() == 4 * v.len(),
        forall|k: int|
            #![trigger v[k]]
            0 <= k < v.len() ==> coords_bytes(v)[4 * k] == (v[k].0 & 0xff) as u8 && coords_bytes(
                v,
            )[4 * k + 1] == ((v[k].0 >> 8) & 0xff) as u8 && coords_bytes(v)[4 * k + 2] == (v[k].1
                & 0xff) as u8 && coords_bytes(v)[4 * k + 3] == ((v[k].1 >> 8) & 0xff) as u8,
    decreases v.len(),
{
    if v.len() > 0 {
        let w = v.drop_last();
        lemma_coords_bytes_index(w);
        assert forall|k: int|
            #![trigger v[k]]
            0 <= k < v.len() implies coords_bytes(v)[4 * k] == (v[k].0 & 0xff) as u8
            && coords_bytes(v)[4 * k + 1] == ((v[k].0 >> 8) & 0xff) as u8 && coords_bytes(v)[4 * k
            + 2] == (v[k].1 & 0xff) as u8 && coords_bytes(v)[4 * k + 3] == ((v[k].1 >> 8)
            & 0xff) as u8 by {
            if k < v.len() - 1 {
                assert(w[k] == v[k]);
                assert(coords_bytes(v)[4 * k] == coords_bytes(w)[4 * k]);
                assert(coords_bytes(v)[4 * k + 1] == coords_bytes(w)[4 * k + 1]);
                assert(coords_bytes(v)[4 * k + 2] == coords_bytes(w)[4 * k + 2]);
                assert(coords_bytes(v)[4 * k + 3] == coords_bytes(w)[4 * k + 3]);
            } else {
                assert(coords_bytes(v)[4 * k] == u16_le(v.last().0)[0]);
                assert(coords_bytes(v)[4 * k + 1] == u16_le(v.last().0)[1]);
                assert(coords_bytes(v)[4 * k + 2] == u16_le(v.last().1)[0]);
                assert(coords_bytes(v)[4 * k + 3] == u16_le(v.last().1)[1]);
            }
        }
    }
}

/// Decoding an encoded coordinate list restores it.
proof fn lemma_coords_round_trip(v: Seq<(u16, u16)>)
    ensures
        coords_of(coords_bytes(v)) == v,
{
    lemma_coords_bytes_index(v);
    assert forall|k: int| 0 <= k < v.len() implies coords_of(coords_bytes(v))[k] == v[k] by {
        lemma_u16_round_trip(v[k].0);
        lemma_u16_round_trip(v[k].1);
    }
    assert(coords_of(coords_bytes(v)) =~= v);
}

/// Byte-level layout of an encoded update list.
proof fn lemma_updates_bytes_index(v: Seq<(u16, u16, u8, u8)>)
    ensures
        updates_bytes(v).len() == 6 * v.len(),
        forall|k: int|
            #![trigger v[k]]
            0 <= k < v.len() ==> updates_bytes(v)[6 * k] == (v[k].0 & 0xff) as u8 && updates_bytes(
                v,
            )[6 * k + 1] == ((v[k].0 >> 8) & 0xff) as u8 && updates_bytes(v)[6 * k + 2] == (v[k].1
                & 0xff) as u8 && updates_bytes(v)[6 * k + 3] == ((v[k].1 >> 8) & 0xff) as u8
                && updates_bytes(v)[6 * k + 4] == v[k].2 && updates_bytes(v)[6 * k + 5] == v[k].3,
    decreases v.len(),
{
    if v.len() > 0 {
        let w = v.drop_last();
        lemma_updates_bytes_index(w);
        assert forall|k: int|
            #![trigger v[k]]
            0 <= k < v.len() implies updates_bytes(v)[6 * k] == (v[k].0 & 0xff) as u8
            && updates_bytes(v)[6 * k + 1] == ((v[k].0 >> 8) & 0xff) as u8 && updates_bytes(v)[6
            * k + 2] == (v[k].1 & 0xff) as u8 && updates_bytes(v)[6 * k + 3] == ((v[k].1 >> 8)
            & 0xff) as u8 && updates_bytes(v)[6 * k + 4] == v[k].2 && updates_bytes(v)[6 * k + 5]
            == v[k].3 by {
            if k < v.len() - 1 {
                assert(w[k] == v[k]);
                assert(updates_bytes(v)[6 * k] == updates_bytes(w)[6 * k]);
                assert(updates_bytes(v)[6 * k + 1] == updates_bytes(w)[6 * k + 1]);
                assert(updates_bytes(v)[6 * k + 2] == updates_bytes(w)[6 * k + 2]);
                assert(updates_bytes(v)[6 * k + 3] == updates_bytes(w)[6 * k + 3]);
                assert(updates_bytes(v)[6 * k + 4] == updates_bytes(w)[6 * k + 4]);
                assert(updates_bytes(v)[6 * k + 5] == updates_bytes(w)[6 * k + 5]);
            } else {
                assert(updates_bytes(v)[6 * k] == u16_le(v.last().0)[0]);
                assert(updates_bytes(v)[6 * k + 1] == u16_le(v.last().0)[1]);
                assert(updates_bytes(v)[6 * k + 2] == u16_le(v.last().1)[0]);
                assert(updates_bytes(v)[6 * k + 3] == u16_le(v.last().1)[1]);
                assert(updates_bytes(v)[6 * k + 4] == seq![v.last().2, v.last().3][0]);
                assert(updates_bytes(v)[6 * k + 5] == seq![v.last().2, v.last().3][1]);
            }
        }
    }
}

/// Decoding an encoded update list restores it.
proof fn lemma_updates_round_trip(v: Seq<(u16, u16, u8, u8)>)
    ensures
        updates_of(updates_bytes(v)) == v,
{
    lemma_updates_bytes_index(v);
    assert forall|k: int| 0 <= k < v.len() implies updates_of(updates_bytes(v))[k] == v[k] by {
        lemma_u16_round_trip(v[k].0);
        lemma_u16_round_trip(v[k].1);
    }
    assert(updates_of(updates_bytes(v)) =~= v);
}

/// Byte-level layout of one encoded row.
proof fn lemma_row_entry_bytes_index(row: Seq<board::Entry>)
    ensures
        row_entry_bytes(row).len() == row.len(),
        forall|j: int|
            0 <= j < row.len() ==> row_entry_bytes(row)[j] == spec_encode_entry(#[trigger] row[j]),
    decreases row.len(),
{
    if row.len() > 0 {
        let w = row.drop_last();
        lemma_row_entry_bytes_index(w);
        assert forall|j: int|
            0 <= j < row.len() implies row_entry_bytes(row)[j] == spec_encode_entry(
            #[trigger] row[j],
        ) by {
            if j < row.len() - 1 {
                assert(w[j] == row[j]);
                assert(row_entry_bytes(row)[j] == row_entry_bytes(w)[j]);
            } else {
                assert(row_entry_bytes(row)[j] == spec_encode_entry(row.last()));
            }
        }
    }
}

/// Byte-level layout of an encoded cell grid.
proof fn lemma_grid_entry_bytes_index(g: Seq<Seq<board::Entry>>, h: int, w: int)
    requires
        board::rect(g, h, w),
    ensures
        grid_entry_bytes(g).len() == h * w,
        forall|i: int, j: int|
            #![trigger g[i][j]]
            0 <= i < h && 0 <= j < w ==> grid_entry_bytes(g)[i * w + j] == spec_encode_entry(
                g[i][j],
            ),
    decreases g.len(),
{
    if g.len() > 0 {
        let p = g.drop_last();
        lemma_grid_entry_bytes_index(p, h - 1, w);
        lemma_row_entry_bytes_index(g.last());
        assert((h - 1) * w + w == h * w) by (nonlinear_arith);
        assert forall|i: int, j: int|
            #![trigger g[i][j]]
            0 <= i < h && 0 <= j < w implies grid_entry_bytes(g)[i * w + j] == spec_encode_entry(
            g[i][j],
        ) by {
            if i < h - 1 {
                assert(p[i][j] == g[i][j]);
                assert(0 <= i * w + j < (h - 1) * w) by (nonlinear_arith)
                    requires
                        0 <= i < h - 1,
                        0 <= j < w,
                ;
                assert(grid_entry_bytes(g)[i * w + j] == grid_entry_bytes(p)[i * w + j]);
            } else {
                assert(i * w + j == (h - 1) * w + j) by (nonlinear_arith)
                    requires
                        i == h - 1,
                ;
                assert(grid_entry_bytes(g)[(h - 1) * w + j] == row_entry_bytes(g.last())[j]);
                assert(g.last() == g[i]);
            }
        }
    } else {
        assert(h * w == 0) by (nonlinear_arith)
            requires
                h == 0,
        ;
    }
}

/// Byte-level layout of an encoded attribution grid.
proof fn lemma_grid_id_bytes_index(g: Seq<Seq<u8>>, h: int, w: int)
    requires
        board::rect(g, h, w),
    ensures
        grid_id_bytes(g).len() == h * w,
        forall|i: int, j: int|
            #![trigger g[i][j]]
            0 <= i < h && 0 <= j < w ==> grid_id_bytes(g)[i * w + j] == g[i][j],
    decreases g.len(),
{
    if g.len() > 0 {
        let p = g.drop_last();
        lemma_grid_id_bytes_index(p, h - 1, w);
        assert((h - 1) * w + w == h * w) by (nonlinear_arith);
        assert forall|i: int, j: int|
            #![trigger g[i][j]]
            0 <= i < h && 0 <= j < w implies grid_id_bytes(g)[i * w + j] == g[i][j] by {
            if i < h - 1 {
                assert(p[i][j] == g[i][j]);
                assert(0 <= i * w + j < (h - 1) * w) by (nonlinear_arith)
                    requires
                        0 <= i < h - 1,
                        0 <= j < w,
                ;
                assert(grid_id_bytes(g)[i * w + j] == grid_id_bytes(p)[i * w + j]);
            } else {
                assert(i * w + j == (h - 1) * w + j) by (nonlinear_arith)
                    requires
                        i == h - 1,
                ;
                assert(grid_id_bytes(g)[(h - 1) * w + j] == g.last()[j]);
                assert(g.last() == g[i]);
            }
        }
    } else {
        assert(h * w == 0) by (nonlinear_arith)
            requires
                h == 0,
        ;
    }
}

/// Decoding the frame of a full-board snapshot restores it: the grids
/// must be rectangular with the packet's own dimensions, every cell
/// must be encodable (a revealed count of at most 8), and a fresh
/// board is read back as ongoing, so the state must not be
/// `Uninitialized`.
#[verifier::rlimit(100)]
#[verifier::spinoff_prover]
pub proof fn lemma_full_board_round_trip(p: ServerToClientPacket)
    requires
        p matches ServerToClientPacket::FullBoard {
            width,
            height,
            board_state,
            entries,
            player_ids,
            ..
        } ==> {
            &&& board::rect(board::gview(entries), height as int, width as int)
            &&& board::rect(board::gview(player_ids), height as int, width as int)
            &&& !(board_state is Uninitialized)
            &&& forall|i: int, j: int|
                0 <= i < height as int && 0 <= j < width as int ==> match #[trigger] board::gview(
                    entries,
                )[i][j] {
                    board::Entry::Revealed { num_mines } => num_mines <= 8,
                    _ => true,
                }
        },
        p is FullBoard,
    ensures
        spec_decode_server(spec_encode_server(p)) == Some(packet_view(p)),
{
    match p {
        ServerToClientPacket::FullBoard {
            width,
            height,
            num_mines,
            board_state,
            entries,
            player_ids,
        } => {
            let h = height as int;
            let w = width as int;
            let ge = board::gview(entries);
            let gi = board::gview(player_ids);
            let cells = w * h;
            lemma_u16_round_trip(width);
            lemma_u16_round_trip(height);
            lemma_u32_round_trip(num_mines);
            lemma_grid_entry_bytes_index(ge, h, w);
            lemma_grid_id_bytes_index(gi, h, w);
            assert(h * w == w * h) by (nonlinear_arith);
            let b = spec_encode_server(p);
            assert(b.len() == 10 + 2 * cells);
            assert(b[0] == 0);
            let eb = b.subrange(10, 10 + cells);
            let ib = b.subrange(10 + cells, 10 + 2 * cells);
            assert(eb =~= grid_entry_bytes(ge));
            assert(ib =~= grid_id_bytes(gi));
            assert forall|k: int| 0 <= k < eb.len() implies spec_decode_entry(#[trigger] eb[k])
                is Some by {
                let i = k / w;
                let j = k % w;
                assert(0 <= i < h && 0 <= j < w && k == i * w + j) by (nonlinear_arith)
                    requires
                        0 <= k < h * w,
                        w >= 1,
                        i == k / w,
                        j == k % w,
                ;
                assert(eb[i * w + j] == spec_encode_entry(ge[i][j]));
            }
            assert(grid_of(eb, h, w) =~~= ge) by {
                assert forall|i: int, j: int|
                    0 <= i < h && 0 <= j < w implies spec_decode_entry(eb[i * w + j]).unwrap()
                    == ge[i][j] by {
                    assert(eb[i * w + j] == spec_encode_entry(ge[i][j]));
                }
            }
            assert(id_grid_of(ib, h, w) =~~= gi) by {
                assert forall|i: int, j: int|
                    0 <= i < h && 0 <= j < w implies ib[i * w + j] == gi[i][j] by {
                    assert(ib[i * w + j] == gi[i][j]);
                }
            }
            assert(spec_decode_state(state_byte(board_state)) == Some(board_state));
        },
        _ => {},
    }
}

/// Decoding the frame of any server packet but a full snapshot
/// restores the packet's content. A loss packet must fit its one-byte
/// mine count.
#[verifier::rlimit(100)]
#[verifier::spinoff_prover]
pub proof fn lemma_server_round_trip(p: ServerToClientPacket)
    requires
        p matches ServerToClientPacket::BoardLoss { hit_mines, .. } ==> hit_mines@.len() < 255,
        !(p is FullBoard),
    ensures
        spec_decode_server(spec_encode_server(p)) == Some(packet_view(p)),
{
    let b = spec_encode_server(p);
    match p {
        ServerToClientPacket::FullBoard { .. } => {},
        ServerToClientPacket::SparseBoard { updates } => {
            lemma_updates_bytes_index(updates@);
            lemma_updates_round_trip(updates@);
            assert(b.subrange(1, b.len() as int) =~= updates_bytes(updates@));
        },
        ServerToClientPacket::PlayerInfo { player_id, color, name } => {
            vstd::utf8::encode_utf8_valid_utf8(name@);
            vstd::utf8::encode_utf8_decode_utf8(name@);
            assert(b.subrange(6, b.len() as int) =~= vstd::utf8::encode_utf8(name@));
        },
        ServerToClientPacket::YourPlayerInfo { player_id, color, name } => {
            vstd::utf8::encode_utf8_valid_utf8(name@);
            vstd::utf8::encode_utf8_decode_utf8(name@);
            assert(b.subrange(6, b.len() as int) =~= vstd::utf8::encode_utf8(name@));
        },
        ServerToClientPacket::BoardLoss { loser_id, hit_mines, wrong_flags } => {
            lemma_coords_bytes_index(hit_mines@);
            lemma_coords_bytes_index(wrong_flags@);
            lemma_coords_round_trip(hit_mines@);
            lemma_coords_round_trip(wrong_flags@);
            let m = hit_mines@.len() as int;
            assert(b.subrange(3, 3 + 4 * m) =~= coords_bytes(hit_mines@));
            assert(b.subrange(3 + 4 * m, b.len() as int) =~= coords_bytes(wrong_flags@));
        },
        ServerToClientPacket::BoardWin => {},
        ServerToClientPacket::NextBoardConfig { width, height, num_mines } => {
            lemma_u16_round_trip(width);
            lemma_u16_round_trip(height);
            lemma_u32_round_trip(num_mines);
        },
    }
}

/// The wire byte for one cell of the revealed layout.
pub fn encode_entry(entry: &board::Entry) -> (b: u8)
    ensures
        b == spec_encode_entry(*entry),
{
    match *entry {
        board::Entry::Unknown { flagged: false } => 253,
        board::Entry::Unknown { flagged: true } => 254,
        board::Entry::Mine => 255,
        board::Entry::Revealed { num_mines } => num_mines,
    }
}

} // verus!
