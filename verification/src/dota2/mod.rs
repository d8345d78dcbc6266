//! The match data model and the hero mask codec.

use crate::mask::HeroMask;
use vstd::prelude::*;
use vstd::std_specs::convert::FromSpecImpl;

pub mod full;
pub mod partial;

verus! {

/// The side of the map a player fought on.
#[derive(Debug, Copy, Clone, Hash, PartialEq, Eq, Structural)]
pub enum Side {
    Radiant,
    Dire,
}

/// The side encoded in a player slot: slots from 128 upwards are Dire.
pub open spec fn side_of_slot(slot: u8) -> Side {
    if slot >= 128 {
        Side::Dire
    } else {
        Side::Radiant
    }
}

impl Side {
    /// The name of the side, which is also the name of its column in the
    /// hero tables.
    pub open spec fn name_of(self) -> Seq<char> {
        match self {
            Side::Radiant => "radiant"@,
            Side::Dire => "dire"@,
        }
    }

    /// The name of the side.
    pub fn name(&self) -> (name: &'static str)
        ensures
            name@ == self.name_of(),
    {
        match self {
            Side::Radiant => "radiant",
            Side::Dire => "dire",
        }
    }
}

impl From<u8> for Side {
    fn from(value: u8) -> (side: Side) {
        assert(value & 0x80u8 != 0 <==> value >= 128) by (bit_vector);
        if value & 0x80u8 != 0 {
            Side::Dire
        } else {
            Side::Radiant
        }
    }
}

impl FromSpecImpl<u8> for Side {
    open spec fn obeys_from_spec() -> bool {
        true
    }

    open spec fn from_spec(value: u8) -> Side {
        side_of_slot(value)
    }
}

/// The heroes that `players` fielded on `side`. The id 0 stands for an
/// unknown hero and is never one of them.
pub open spec fn side_heroes(players: Seq<full::Player>, side: Side) -> Set<u8> {
    Set::new(
        |hero: u8|
            hero != 0 && exists|i: int|
                0 <= i < players.len() && side_of_slot(#[trigger] players[i].player_slot) == side
                    && players[i].hero_id == hero,
    )
}

/// The heroes of `heroes` with an id from 1 up to, but without, `below`, in
/// ascending order.
pub open spec fn listed(heroes: Set<u8>, below: int) -> Seq<u8>
    decreases below,
{
    if below <= 1 {
        Seq::empty()
    } else {
        let rest = listed(heroes, below - 1);
        if heroes.contains((below - 1) as u8) {
            rest.push((below - 1) as u8)
        } else {
            rest
        }
    }
}

/// The entry at `slot` of one side of a draft made from `heroes`: the hero at
/// that place, and 0 behind the last one.
pub open spec fn slot_of(heroes: Seq<u8>, slot: int) -> u8 {
    if 0 <= slot < heroes.len() {
        heroes[slot]
    } else {
        0
    }
}

/// One side of the draft of a set of heroes: its five lowest heroes other
/// than 0 in ascending order, filled up with 0.
pub open spec fn decoded_side(heroes: Set<u8>) -> Seq<u8> {
    Seq::new(5, |slot: int| slot_of(listed(heroes, 256), slot))
}

/// The heroes named on one side of a draft: its entries other than 0.
pub open spec fn drafted(line: Seq<u8>) -> Set<u8> {
    Set::new(|hero: u8| hero != 0 && line.contains(hero))
}

/// The heroes of a match, one mask for each side.
#[derive(Clone, Copy, Debug, PartialEq, Eq, Structural)]
pub struct MatchMask {
    pub match_id: u64,
    pub radiant: HeroMask,
    pub dire: HeroMask,
}

/// The heroes of a match as two lists of at most five ids, 0 where a place is
/// empty.
#[derive(Clone, Debug)]
pub struct MatchDraft {
    pub match_id: u64,
    pub radiant: [u8; 5],
    pub dire: [u8; 5],
}

/// A match id, as the row type of a query for ids alone.
#[derive(Clone, Copy, Debug, PartialEq, Eq, Structural)]
pub struct MatchId {
    pub match_id: u64,
}

impl From<u64> for MatchId {
    fn from(value: u64) -> (id: MatchId) {
        MatchId { match_id: value }
    }
}

impl FromSpecImpl<u64> for MatchId {
    open spec fn obeys_from_spec() -> bool {
        true
    }

    open spec fn from_spec(value: u64) -> MatchId {
        MatchId { match_id: value }
    }
}

/// The five entries of one side of a draft made from `heroes`.
pub open spec fn side_line(heroes: Seq<u8>) -> [u8; 5] {
    [
        slot_of(heroes, 0),
        slot_of(heroes, 1),
        slot_of(heroes, 2),
        slot_of(heroes, 3),
        slot_of(heroes, 4),
    ]
}

impl<'a> From<&'a full::Match> for MatchDraft {
    /// The draft of a match: what its mask decodes to. Each side lists the
    /// heroes that the match fielded there, the unknown hero 0 left out and
    /// each hero once, in ascending order. A side that fielded at most five
    /// heroes names them all.
    fn from(game: &'a full::Match) -> (draft: MatchDraft)
        ensures
            draft.match_id == game.match_id,
            draft.radiant@ == decoded_side(side_heroes(game.players@, Side::Radiant)),
            draft.dire@ == decoded_side(side_heroes(game.players@, Side::Dire)),
            side_heroes(game.players@, Side::Radiant).len() <= 5 ==> drafted(draft.radiant@)
                == side_heroes(game.players@, Side::Radiant),
            side_heroes(game.players@, Side::Dire).len() <= 5 ==> drafted(draft.dire@)
                == side_heroes(game.players@, Side::Dire),
    {
        let mask = MatchMask::encode(game);
        let draft = mask.decode();
        proof {
            if side_heroes(game.players@, Side::Radiant).len() <= 5 {
                lemma_decode_keeps_heroes(mask.radiant@);
            }
            if side_heroes(game.players@, Side::Dire).len() <= 5 {
                lemma_decode_keeps_heroes(mask.dire@);
            }
            assert(draft.radiant =~= side_line(
                listed(side_heroes(game.players@, Side::Radiant), 256),
            ));
            assert(draft.dire =~= side_line(listed(side_heroes(game.players@, Side::Dire), 256)));
        }
        draft
    }
}

impl<'a> FromSpecImpl<&'a full::Match> for MatchDraft {
    open spec fn obeys_from_spec() -> bool {
        true
    }

    open spec fn from_spec(game: &'a full::Match) -> MatchDraft {
        MatchDraft {
            match_id: game.match_id,
            radiant: side_line(listed(side_heroes(game.players@, Side::Radiant), 256)),
            dire: side_line(listed(side_heroes(game.players@, Side::Dire), 256)),
        }
    }
}

impl From<full::Match> for MatchDraft {
    fn from(game: full::Match) -> (draft: MatchDraft) {
        MatchDraft::from(&game)
    }
}

impl FromSpecImpl<full::Match> for MatchDraft {
    open spec fn obeys_from_spec() -> bool {
        true
    }

    open spec fn from_spec(game: full::Match) -> MatchDraft {
        <MatchDraft as vstd::std_specs::convert::FromSpec<&full::Match>>::from_spec(&game)
    }
}

impl MatchMask {
    /// A mask as it is stored: hero 0 on neither side, at most five heroes
    /// on each.
    pub open spec fn wf(self) -> bool {
        &&& !self.radiant@.contains(0)
        &&& !self.dire@.contains(0)
        &&& self.radiant@.finite() && self.radiant@.len() <= 5
        &&& self.dire@.finite() && self.dire@.len() <= 5
    }

    /// Whether this is the mask of `game`: it has the id of the match, and
    /// on each side the heroes that the match fielded there.
    pub open spec fn is_mask_of(self, game: full::Match) -> bool {
        &&& self.match_id == game.match_id
        &&& self.radiant@ == side_heroes(game.players@, Side::Radiant)
        &&& self.dire@ == side_heroes(game.players@, Side::Dire)
    }

    /// The mask of a match: each player's hero on the side that the player's
    /// slot names, but for the unknown hero 0.
    pub fn encode(game: &full::Match) -> (mask: MatchMask)
        ensures
            mask.is_mask_of(*game),
    {
        let mut radiant = HeroMask::empty();
        let mut dire = HeroMask::empty();
        let mut i: usize = 0;
        while i < game.players.len()
            invariant
                i <= game.players.len(),
                radiant@ == side_heroes(game.players@.take(i as int), Side::Radiant),
                dire@ == side_heroes(game.players@.take(i as int), Side::Dire),
            decreases game.players.len() - i,
        {
            let player = &game.players[i];
            let side = Side::from(player.player_slot);
            if player.hero_id != 0 {
                match side {
                    Side::Radiant => radiant.insert(player.hero_id),
                    Side::Dire => dire.insert(player.hero_id),
                }
            }
            proof {
                lemma_side_heroes_step(game.players@, i as int, Side::Radiant);
                lemma_side_heroes_step(game.players@, i as int, Side::Dire);
            }
            i += 1;
        }
        assert(game.players@.take(i as int) == game.players@);
        MatchMask { match_id: game.match_id, radiant, dire }
    }

    /// The draft of a mask: on each side its five lowest heroes from 1 to
    /// 255, in ascending order.
    pub fn decode(&self) -> (draft: MatchDraft)
        ensures
            draft.match_id == self.match_id,
            draft.radiant@ == decoded_side(self.radiant@),
            draft.dire@ == decoded_side(self.dire@),
    {
        MatchDraft {
            match_id: self.match_id,
            radiant: decode_side(&self.radiant),
            dire: decode_side(&self.dire),
        }
    }
}

/// What one more player adds to the heroes of a side.
proof fn lemma_side_heroes_step(players: Seq<full::Player>, i: int, side: Side)
    requires
        0 <= i < players.len(),
    ensures
        side_heroes(players.take(i + 1), side) == if players[i].hero_id != 0 && side_of_slot(
            players[i].player_slot,
        ) == side {
            side_heroes(players.take(i), side).insert(players[i].hero_id)
        } else {
            side_heroes(players.take(i), side)
        },
{
    let before = players.take(i);
    let after = players.take(i + 1);
    let joins = players[i].hero_id != 0 && side_of_slot(players[i].player_slot) == side;
    let expected = if joins {
        side_heroes(before, side).insert(players[i].hero_id)
    } else {
        side_heroes(before, side)
    };
    assert forall|hero: u8| side_heroes(after, side).contains(hero) <==> expected.contains(
        hero,
    ) by {
        if side_heroes(after, side).contains(hero) {
            let j = choose|j: int|
                0 <= j < after.len() && side_of_slot(#[trigger] after[j].player_slot) == side
                    && after[j].hero_id == hero;
            if j < i {
                assert(side_of_slot(before[j].player_slot) == side && before[j].hero_id == hero);
            }
        }
        if expected.contains(hero) {
            if side_heroes(before, side).contains(hero) {
                let j = choose|j: int|
                    0 <= j < before.len() && side_of_slot(#[trigger] before[j].player_slot) == side
                        && before[j].hero_id == hero;
                assert(side_of_slot(after[j].player_slot) == side && after[j].hero_id == hero);
            } else {
                assert(side_of_slot(after[i].player_slot) == side && after[i].hero_id == hero);
            }
        }
    }
    assert(side_heroes(after, side) =~= expected);
}

proof fn lemma_listed(heroes: Set<u8>, below: int)
    requires
        below <= 256,
    ensures
        forall|k: int|
            0 <= k < listed(heroes, below).len() ==> 1 <= #[trigger] listed(heroes, below)[k]
                < below && heroes.contains(listed(heroes, below)[k]),
        forall|j: int, k: int|
            0 <= j < k < listed(heroes, below).len() ==> listed(heroes, below)[j] < listed(
                heroes,
                below,
            )[k],
        forall|hero: u8|
            1 <= hero < below && heroes.contains(hero) ==> listed(heroes, below).contains(hero),
    decreases below,
{
    if below > 1 {
        lemma_listed(heroes, below - 1);
        let rest = listed(heroes, below - 1);
        let all = listed(heroes, below);
        let top = (below - 1) as u8;
        assert forall|hero: u8| 1 <= hero < below && heroes.contains(hero) implies all.contains(
            hero,
        ) by {
            if hero == top {
                assert(all[all.len() - 1] == hero);
            } else {
                let k = choose|k: int| 0 <= k < rest.len() && rest[k] == hero;
                assert(all[k] == hero);
            }
        }
    }
}

/// A set without hero 0 and with at most five heroes loses nothing when it
/// is decoded: the entries of the decoded side other than 0 are its heroes.
pub proof fn lemma_decode_keeps_heroes(heroes: Set<u8>)
    requires
        !heroes.contains(0),
        heroes.len() <= 5,
    ensures
        drafted(decoded_side(heroes)) == heroes,
{
    let all = listed(heroes, 256);
    lemma_listed(heroes, 256);
    assert(all.no_duplicates());
    assert forall|hero: u8| all.to_set().contains(hero) <==> heroes.contains(hero) by {
        if all.contains(hero) {
            let k = choose|k: int| 0 <= k < all.len() && all[k] == hero;
            assert(heroes.contains(all[k]));
        }
    }
    assert(all.to_set() =~= heroes);
    all.unique_seq_to_set();
    let line = decoded_side(heroes);
    assert forall|hero: u8| drafted(line).contains(hero) <==> heroes.contains(hero) by {
        if hero != 0 && line.contains(hero) {
            let k = choose|k: int| 0 <= k < line.len() && line[k] == hero;
            assert(all[k] == hero);
            assert(heroes.contains(all[k]));
        }
        if heroes.contains(hero) {
            let k = choose|k: int| 0 <= k < all.len() && all[k] == hero;
            assert(line[k] == hero);
        }
    }
    assert(drafted(line) =~= heroes);
}

/// The mask of a match that fielded at most five heroes on each side is a
/// mask as it is stored.
pub proof fn lemma_encoded_wf(mask: MatchMask, game: full::Match)
    requires
        mask.is_mask_of(game),
        side_heroes(game.players@, Side::Radiant).len() <= 5,
        side_heroes(game.players@, Side::Dire).len() <= 5,
    ensures
        mask.wf(),
{
    lemma_mask_finite(mask.radiant);
    lemma_mask_finite(mask.dire);
}

proof fn lemma_mask_finite(mask: HeroMask)
    ensures
        mask@.finite(),
{
    let all = crate::mask::members(mask, 256);
    crate::mask::lemma_members(mask, 256);
    assert forall|hero: u8| all.to_set().contains(hero) <==> mask@.contains(hero) by {
        if all.contains(hero) {
            let k = choose|k: int| 0 <= k < all.len() && all[k] == hero;
            assert(mask.has(all[k]));
        }
    }
    assert(all.to_set() =~= mask@);
    vstd::seq_lib::seq_to_set_is_finite(all);
}

/// Encoding a match and decoding the mask gives back, on each side, the set
/// of heroes that the match fielded there, provided they are at most five.
pub proof fn lemma_codec_round_trip(players: Seq<full::Player>, side: Side, mask: HeroMask)
    requires
        mask@ == side_heroes(players, side),
        side_heroes(players, side).len() <= 5,
    ensures
        drafted(decoded_side(mask@)) == side_heroes(players, side),
{
    lemma_decode_keeps_heroes(mask@);
}

fn decode_side(mask: &HeroMask) -> (line: [u8; 5])
    ensures
        line@ == decoded_side(mask@),
{
    let mut line: [u8; 5] = [0, 0, 0, 0, 0];
    let mut count: usize = 0;
    let mut hero: u16 = 1;
    proof {
        assert(listed(mask@, 1).len() == 0);
    }
    while hero < 256
        invariant
            1 <= hero <= 256,
            count <= 5,
            count == listed(mask@, hero as int).len() || (count == 5 && listed(
                mask@,
                hero as int,
            ).len() > 5),
            forall|slot: int|
                0 <= slot < 5 ==> line@[slot] == slot_of(listed(mask@, hero as int), slot),
        decreases 256 - hero,
    {
        if count < 5 && mask.contains(hero as u8) {
            line[count] = hero as u8;
            count += 1;
        }
        hero += 1;
    }
    assert(line@ =~= decoded_side(mask@));
    line
}

} // verus!
