//! Player registry: binds each address key to a stable small-integer
//! identity with a color, a display name and a last-activity
//! timestamp, evicting the stalest entry when the 255-identity
//! capacity is reached.
use vstd::prelude::*;

use crate::names;

verus! {

/// The capacity bound: identity 0 is reserved for the system, so at
/// most 255 live identities exist at once.
pub open spec fn max_players() -> int {
    255
}

/// One registered player.
pub struct Player {
    pub id: u8,
    pub last_interaction: u64,
    pub name: String,
    pub color: (u8, u8, u8, u8),
}

impl Player {
    pub fn id(&self) -> (r: u8)
        ensures
            r == self.id,
    {
        self.id
    }

    pub fn name(&self) -> (r: &str)
        ensures
            r@ == self.name@,
    {
        self.name.as_str()
    }

    pub fn color(&self) -> (r: (u8, u8, u8, u8))
        ensures
            r == self.color,
    {
        self.color
    }
}

/// A registry entry: the address key and its player.
pub struct PlayerEntry {
    pub addr: String,
    pub player: Player,
}

/// The color drawn from the fixed 14-color palette for an identity.
pub open spec fn spec_palette_color(k: int) -> (u8, u8, u8, u8) {
    if k == 0 {
        (0x8d, 0x6e, 0x63, 0xff)
    } else if k == 1 {
        (0xff, 0xa7, 0x26, 0xff)
    } else if k == 2 {
        (0xff, 0xca, 0x28, 0xff)
    } else if k == 3 {
        (0xd4, 0xe1, 0x57, 0xff)
    } else if k == 4 {
        (0x9c, 0xcc, 0x65, 0xff)
    } else if k == 5 {
        (0x66, 0xbb, 0x6a, 0xff)
    } else if k == 6 {
        (0x26, 0xa6, 0x9a, 0xff)
    } else if k == 7 {
        (0x26, 0xc6, 0xda, 0xff)
    } else if k == 8 {
        (0x29, 0xb6, 0xf6, 0xff)
    } else if k == 9 {
        (0x42, 0xa5, 0xf5, 0xff)
    } else if k == 10 {
        (0x56, 0x6b, 0xc0, 0xff)
    } else if k == 11 {
        (0x7e, 0x57, 0xc2, 0xff)
    } else if k == 12 {
        (0xab, 0x47, 0xbc, 0xff)
    } else {
        (0xec, 0x40, 0x7a, 0xff)
    }
}

/// The palette color assigned to an identity: `id mod 14`.
pub fn palette_color(id: u8) -> (c: (u8, u8, u8, u8))
    ensures
        c == spec_palette_color(id as int % 14),
{
    match id % 14 {
        0 => (0x8d, 0x6e, 0x63, 0xff),
        1 => (0xff, 0xa7, 0x26, 0xff),
        2 => (0xff, 0xca, 0x28, 0xff),
        3 => (0xd4, 0xe1, 0x57, 0xff),
        4 => (0x9c, 0xcc, 0x65, 0xff),
        5 => (0x66, 0xbb, 0x6a, 0xff),
        6 => (0x26, 0xa6, 0x9a, 0xff),
        7 => (0x26, 0xc6, 0xda, 0xff),
        8 => (0x29, 0xb6, 0xf6, 0xff),
        9 => (0x42, 0xa5, 0xf5, 0xff),
        10 => (0x56, 0x6b, 0xc0, 0xff),
        11 => (0x7e, 0x57, 0xc2, 0xff),
        12 => (0xab, 0x47, 0xbc, 0xff),
        _ => (0xec, 0x40, 0x7a, 0xff),
    }
}

/// The display name a new registry entry receives: a generator draw,
/// or the address key itself when a word list is empty.
pub open spec fn entry_name_ok(g: names::Generator, name: Seq<char>, addr: Seq<char>) -> bool {
    if g.adjectives@.len() > 0 && g.nouns@.len() > 0 {
        names::is_drawn_name(g, name)
    } else {
        name == addr
    }
}

/// The registry: at most 255 address keys, each with a distinct
/// nonzero identity.
pub struct PlayerList {
    pub entries: Vec<PlayerEntry>,
    pub name_gen: names::Generator,
}

impl PlayerList {
    /// Well-formedness: bounded size, unique address keys, unique
    /// nonzero identities, and sequential identities while below
    /// capacity.
    pub open spec fn wf(self) -> bool {
        &&& self.entries@.len() <= max_players()
        &&& forall|i: int, j: int|
            0 <= i < self.entries@.len() && 0 <= j < self.entries@.len() && i != j
                ==> (#[trigger] self.entries@[i]).addr@ != (#[trigger] self.entries@[j]).addr@
        &&& forall|i: int, j: int|
            0 <= i < self.entries@.len() && 0 <= j < self.entries@.len() && i != j
                ==> (#[trigger] self.entries@[i]).player.id != (
            #[trigger] self.entries@[j]).player.id
        &&& forall|i: int|
            0 <= i < self.entries@.len() ==> (#[trigger] self.entries@[i]).player.id >= 1
        &&& (self.entries@.len() < max_players() ==> forall|i: int|
            0 <= i < self.entries@.len() ==> (#[trigger] self.entries@[i]).player.id == i + 1)
    }

    /// Whether some entry carries this address key.
    pub open spec fn has_addr(self, addr: Seq<char>) -> bool {
        exists|i: int| 0 <= i < self.entries@.len() && (#[trigger] self.entries@[i]).addr@ == addr
    }

    /// A fresh registry over the given word lists.
    pub fn new(adjectives: Vec<String>, nouns: Vec<String>) -> (r: PlayerList)
        ensures
            r.wf(),
            r.entries@.len() == 0,
            r.name_gen.adjectives == adjectives,
            r.name_gen.nouns == nouns,
            r.name_gen.naming is Plain,
    {
        PlayerList {
            entries: Vec::new(),
            name_gen: names::Generator::new(adjectives, nouns, names::Name::Plain),
        }
    }

    /// The index of the address key, if registered.
    fn find_addr(&self, addr: &String) -> (r: Option<usize>)
        ensures
            match r {
                Some(i) => i < self.entries@.len() && self.entries@[i as int].addr@ == addr@,
                None => !self.has_addr(addr@),
            },
    {
        let mut k: usize = 0;
        while k < self.entries.len()
            invariant
                k <= self.entries@.len(),
                forall|m: int| 0 <= m < k ==> (#[trigger] self.entries@[m]).addr@ != addr@,
            decreases self.entries@.len() - k,
        {
            if self.entries[k].addr == *addr {
                return Some(k);
            }
            k = k + 1;
        }
        None
    }

    /// The index of the entry with the oldest last-activity
    /// timestamp, ties going to the first.
    fn oldest_index(&self) -> (v: usize)
        requires
            self.entries@.len() >= 1,
        ensures
            v < self.entries@.len(),
            forall|k: int|
                0 <= k < self.entries@.len() ==> (#[trigger] self.entries@[k]).player.last_interaction
                    >= self.entries@[v as int].player.last_interaction,
            forall|k: int|
                0 <= k < v ==> (#[trigger] self.entries@[k]).player.last_interaction
                    > self.entries@[v as int].player.last_interaction,
    {
        let mut best: usize = 0;
        let mut k: usize = 1;
        while k < self.entries.len()
            invariant
                1 <= k <= self.entries@.len(),
                best < k,
                forall|m: int|
                    0 <= m < k ==> (#[trigger] self.entries@[m]).player.last_interaction
                        >= self.entries@[best as int].player.last_interaction,
                forall|m: int|
                    0 <= m < best ==> (#[trigger] self.entries@[m]).player.last_interaction
                        > self.entries@[best as int].player.last_interaction,
            decreases self.entries@.len() - k,
        {
            if self.entries[k].player.last_interaction
                < self.entries[best].player.last_interaction {
                best = k;
            }
            k = k + 1;
        }
        best
    }

    /// Registers the address key if it is new. Below capacity the new
    /// player takes identity `size + 1`; at capacity the entry with
    /// the oldest activity is evicted and its identity reused.
    pub fn construct_player(&mut self, addr: &String, now: u64)
        requires
            old(self).wf(),
        ensures
            final(self).wf(),
            final(self).has_addr(addr@),
            old(self).has_addr(addr@) ==> *final(self) == *old(self),
            (!old(self).has_addr(addr@) && old(self).entries@.len() < max_players()) ==> (
            final(self).entries@.len() == old(self).entries@.len() + 1 && (forall|k: int|
                0 <= k < old(self).entries@.len() ==> #[trigger] final(self).entries@[k] == old(self).entries@[k]) && final(self).entries@.last().addr@ == addr@ && final(self).entries@.last().player.id == old(self).entries@.len() + 1 && final(self).entries@.last().player.last_interaction == now && final(self).entries@.last().player.color == spec_palette_color(
                (old(self).entries@.len() as int + 1) % 14,
            ) && entry_name_ok(
                old(self).name_gen,
                final(self).entries@.last().player.name@,
                addr@,
            )),
            (!old(self).has_addr(addr@) && old(self).entries@.len() == max_players()) ==> (exists|
                v: int,
            |
                {
                    &&& 0 <= v < max_players()
                    &&& (forall|k: int|
                        0 <= k < max_players() ==> (#[trigger] old(self).entries@[k]).player.last_interaction >= old(self).entries@[v].player.last_interaction)
                    &&& (forall|k: int|
                        0 <= k < v ==> (#[trigger] old(self).entries@[k]).player.last_interaction
                            > old(self).entries@[v].player.last_interaction)
                    &&& final(self).entries@.len() == max_players()
                    &&& final(self).entries@ =~= old(self).entries@.remove(v).push(
                        final(self).entries@.last(),
                    )
                    &&& final(self).entries@.last().addr@ == addr@
                    &&& final(self).entries@.last().player.id == old(self).entries@[v].player.id
                    &&& final(self).entries@.last().player.last_interaction == now
                    &&& entry_name_ok(
                        old(self).name_gen,
                        final(self).entries@.last().player.name@,
                        addr@,
                    )
                }),
            final(self).name_gen == old(self).name_gen,
    {
        match self.find_addr(addr) {
            Some(_) => {},
            None => {
                let id: u8 = if self.entries.len() < 255 {
                    (self.entries.len() + 1) as u8
                } else {
                    let v = self.oldest_index();
                    let evicted = self.entries.remove(v);
                    evicted.player.id
                };
                let name = match self.name_gen.next() {
                    Some(n) => n,
                    None => addr.clone(),
                };
                let color = palette_color(id);
                let player = Player { id, last_interaction: now, name, color };
                let entry = PlayerEntry { addr: addr.clone(), player };
                self.entries.push(entry);
                proof {
                    assert(final(self).entries@.last().addr@ == addr@);
                }
            },
        }
    }

    /// The player registered under this address key, if any.
    pub fn get_player(&self, addr: &String) -> (r: Option<&Player>)
        requires
            self.wf(),
        ensures
            match r {
                Some(p) => exists|i: int|
                    0 <= i < self.entries@.len() && (#[trigger] self.entries@[i]).addr@ == addr@
                        && *p == self.entries@[i].player,
                None => !self.has_addr(addr@),
            },
    {
        match self.find_addr(addr) {
            Some(i) => Some(&self.entries[i].player),
            None => None,
        }
    }

    /// Refreshes the address key's activity timestamp and returns its
    /// identity, or nothing when the address was never registered.
    pub fn keep_addr_alive(&mut self, addr: &String, now: u64) -> (r: Option<u8>)
        requires
            old(self).wf(),
        ensures
            final(self).wf(),
            match r {
                Some(id) => exists|i: int|
                    {
                        &&& 0 <= i < old(self).entries@.len()
                        &&& (#[trigger] old(self).entries@[i]).addr@ == addr@
                        &&& id == old(self).entries@[i].player.id
                        &&& final(self).entries@[i].player.last_interaction == now
                        &&& final(self).entries@[i].player.id == old(self).entries@[i].player.id
                        &&& final(self).entries@[i].player.name == old(self).entries@[i].player.name
                        &&& final(self).entries@[i].player.color == old(self).entries@[i].player.color
                        &&& final(self).entries@[i].addr == old(self).entries@[i].addr
                        &&& final(self).entries@.len() == old(self).entries@.len()
                        &&& (forall|k: int|
                            0 <= k < old(self).entries@.len() && k != i
                                ==> #[trigger] final(self).entries@[k] == old(self).entries@[k])
                    },
                None => !old(self).has_addr(addr@) && *final(self) == *old(self),
            },
            final(self).name_gen == old(self).name_gen,
    {
        match self.find_addr(addr) {
            Some(i) => {
                let id = self.entries[i].player.id;
                self.entries[i].player.last_interaction = now;
                Some(id)
            },
            None => None,
        }
    }

    /// All registry entries, in registration order.
    pub fn players(&self) -> (r: &Vec<PlayerEntry>)
        ensures
            r == self.entries,
    {
        &self.entries
    }
}

} // verus!
