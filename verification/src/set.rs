use vstd::prelude::*;

use crate::identifier::{fresh_uuid, Identifier};
use crate::tile::{first_match, lemma_first_match, Color, Tile};

verus! {

#[derive(Debug, PartialEq, Eq, Clone, Copy, Structural)]
pub enum SetError {
    MinLength,
    MaxLength,
    /// When two tiles don't make any sensible set together.
    BadTile,
    OutOfBounds,
}

#[derive(Debug, PartialEq, Eq, Clone, Copy, Structural)]
pub enum SetOrder {
    /// Three or four tiles of the same value in pairwise-distinct colors.
    Group,
    /// Three or more consecutive values in one color.
    Run,
}

/// An ordered collection of tiles owned by the table. It classifies itself
/// as a run or a group, resolves joker values, and computes its score.
#[derive(Debug, Clone)]
pub struct TileSet {
    pub id: u128,
    pub tiles: Vec<Tile>,
}

/// Every tile of the sequence is a legal tile.
pub open spec fn all_valid(tiles: Seq<Tile>) -> bool {
    forall|i: int| 0 <= i < tiles.len() ==> tiles[i].spec_is_valid()
}

pub open spec fn has_joker(tiles: Seq<Tile>) -> bool {
    exists|i: int| 0 <= i < tiles.len() && tiles[i].spec_is_joker()
}

pub open spec fn all_jokers(tiles: Seq<Tile>) -> bool {
    forall|i: int| 0 <= i < tiles.len() ==> tiles[i].spec_is_joker()
}

/// No two non-joker tiles share a color.
pub open spec fn distinct_colors(tiles: Seq<Tile>) -> bool {
    forall|i: int, j: int|
        0 <= i < j < tiles.len() && !tiles[i].spec_is_joker() && !tiles[j].spec_is_joker()
            ==> tiles[i].color != tiles[j].color
}

/// Exactly when a set classifies as a group: three or four tiles whose
/// non-joker colors are pairwise distinct, with at least one non-joker tile
/// to anchor the common value (a set entirely of jokers fails).
pub open spec fn group_ok(tiles: Seq<Tile>) -> bool {
    3 <= tiles.len() <= 4 && distinct_colors(tiles) && !all_jokers(tiles)
}

/// The common group value: the face value of the first non-joker tile.
pub open spec fn group_value(tiles: Seq<Tile>) -> u8
    decreases tiles.len(),
{
    if tiles.len() == 0 {
        0
    } else if !tiles[0].spec_is_joker() {
        tiles[0].value
    } else {
        group_value(tiles.drop_first())
    }
}

/// The tiles with every joker re-interpreted as the common group value.
/// The re-interpretation is transient: it is never written back to the set.
pub open spec fn resolved_group(tiles: Seq<Tile>) -> Seq<Tile> {
    Seq::new(
        tiles.len(),
        |i: int|
            if tiles[i].spec_is_joker() {
                Tile { id: tiles[i].id, value: group_value(tiles), color: tiles[i].color }
            } else {
                tiles[i]
            },
    )
}

/// The plain arithmetic sum of the stored face values.
pub open spec fn raw_sum(tiles: Seq<Tile>) -> int
    decreases tiles.len(),
{
    if tiles.len() == 0 {
        0
    } else {
        raw_sum(tiles.drop_last()) + tiles.last().value
    }
}

pub open spec fn group_sum(tiles: Seq<Tile>) -> int {
    raw_sum(resolved_group(tiles))
}

/// What `get_sum` returns: with a joker present, the better of the run and
/// group interpretations (a failed interpretation scores 0; the run
/// interpretation never succeeds, see `get_tiles_as_run`); otherwise the
/// plain sum of stored values.
pub open spec fn spec_sum(tiles: Seq<Tile>) -> int {
    if has_joker(tiles) {
        if group_ok(tiles) {
            group_sum(tiles)
        } else {
            0
        }
    } else {
        raw_sum(tiles)
    }
}

/// Removing one tile keeps a sequence of legal tiles legal.
pub proof fn lemma_all_valid_remove(tiles: Seq<Tile>, i: int)
    requires
        all_valid(tiles),
        0 <= i < tiles.len(),
    ensures
        all_valid(tiles.remove(i)),
{
    assert forall|j: int| 0 <= j < tiles.remove(i).len() implies tiles.remove(
        i,
    )[j].spec_is_valid() by {
        if j < i {
            assert(tiles.remove(i)[j] == tiles[j]);
        } else {
            assert(tiles.remove(i)[j] == tiles[j + 1]);
        }
    }
}

pub proof fn lemma_raw_sum_nonneg(tiles: Seq<Tile>)
    ensures
        raw_sum(tiles) >= 0,
    decreases tiles.len(),
{
    if tiles.len() > 0 {
        lemma_raw_sum_nonneg(tiles.drop_last());
    }
}

pub proof fn lemma_raw_sum_prefix(tiles: Seq<Tile>, i: int)
    requires
        0 <= i <= tiles.len(),
    ensures
        raw_sum(tiles.take(i)) <= raw_sum(tiles),
    decreases tiles.len() - i,
{
    if i == tiles.len() {
        assert(tiles.take(i) =~= tiles);
    } else {
        assert(tiles.take(i + 1).drop_last() =~= tiles.take(i));
        assert(tiles.take(i + 1).last() == tiles[i]);
        lemma_raw_sum_prefix(tiles, i + 1);
    }
}

pub proof fn lemma_raw_sum_bound(tiles: Seq<Tile>, b: int)
    requires
        forall|i: int| 0 <= i < tiles.len() ==> tiles[i].value <= b,
        b >= 0,
    ensures
        raw_sum(tiles) <= b * tiles.len(),
    decreases tiles.len(),
{
    if tiles.len() > 0 {
        lemma_raw_sum_bound(tiles.drop_last(), b);
        assert(raw_sum(tiles.drop_last()) <= b * (tiles.len() - 1));
        assert(b * tiles.len() == b * (tiles.len() - 1) + b) by (nonlinear_arith);
    }
}

/// The group value is the face value of the first non-joker tile.
pub proof fn lemma_group_value(tiles: Seq<Tile>, k: int)
    requires
        0 <= k < tiles.len(),
        forall|j: int| 0 <= j < k ==> tiles[j].spec_is_joker(),
        !tiles[k].spec_is_joker(),
    ensures
        group_value(tiles) == tiles[k].value,
    decreases k,
{
    if k > 0 {
        assert(tiles[0].spec_is_joker());
        lemma_group_value(tiles.drop_first(), k - 1);
    }
}

/// With at least one valid non-joker tile, the group value is in 1..=13.
pub proof fn lemma_group_value_range(tiles: Seq<Tile>)
    requires
        all_valid(tiles),
        tiles.len() > 0,
        !all_jokers(tiles),
    ensures
        1 <= group_value(tiles) <= 13,
    decreases tiles.len(),
{
    if !tiles[0].spec_is_joker() {
        assert(tiles[0].spec_is_valid());
    } else {
        let rest = tiles.drop_first();
        assert(!all_jokers(rest)) by {
            let w = choose|i: int| 0 <= i < tiles.len() && !tiles[i].spec_is_joker();
            assert(rest[w - 1] == tiles[w]);
        }
        lemma_group_value_range(rest);
    }
}

/// Four numbered tiles of one value in four pairwise-distinct colors always
/// classify as a group, so `validate` accepts them.
pub proof fn lemma_four_color_group(t0: Tile, t1: Tile, t2: Tile, t3: Tile)
    requires
        t0.spec_is_valid() && !t0.spec_is_joker(),
        t1.spec_is_valid() && !t1.spec_is_joker(),
        t2.spec_is_valid() && !t2.spec_is_joker(),
        t3.spec_is_valid() && !t3.spec_is_joker(),
        t0.color != t1.color && t0.color != t2.color && t0.color != t3.color,
        t1.color != t2.color && t1.color != t3.color,
        t2.color != t3.color,
        t0.value == t1.value && t1.value == t2.value && t2.value == t3.value,
    ensures
        group_ok(seq![t0, t1, t2, t3]),
        all_valid(seq![t0, t1, t2, t3]),
{
    let s = seq![t0, t1, t2, t3];
    assert forall|i: int, j: int|
        0 <= i < j < s.len() && !s[i].spec_is_joker() && !s[j].spec_is_joker() implies s[i].color
        != s[j].color by {}
    assert(!s[0].spec_is_joker());
}

/// The same four tiles with a color duplicated among them never classify as
/// a group, so `validate` reports BadTile for them.
pub proof fn lemma_duplicate_color_group_fails(t0: Tile, t1: Tile, t2: Tile, t3: Tile, a: int, b: int)
    requires
        !t0.spec_is_joker() && !t1.spec_is_joker() && !t2.spec_is_joker() && !t3.spec_is_joker(),
        0 <= a < b < 4,
        seq![t0, t1, t2, t3][a].color == seq![t0, t1, t2, t3][b].color,
    ensures
        !group_ok(seq![t0, t1, t2, t3]),
{
    let s = seq![t0, t1, t2, t3];
    assert(!distinct_colors(s)) by {
        if distinct_colors(s) {
            assert(s[a].color != s[b].color);
        }
    }
}

impl TileSet {
    /// An empty set with a freshly generated identity.
    pub fn new() -> (s: TileSet)
        ensures
            s.tiles@.len() == 0,
    {
        TileSet { id: fresh_uuid(), tiles: Vec::new() }
    }

    pub fn set_tiles(&mut self, tiles: Vec<Tile>)
        ensures
            final(self).tiles == tiles,
            final(self).id == old(self).id,
    {
        self.tiles = tiles;
    }

    /// The run interpretation. Reproduces the documented behavior literally:
    /// the set is first rejected unless every tile's raw stored value equals
    /// the first tile's, and only then would consecutive resolved values be
    /// required — the two gates are in tension, so for valid tiles no set
    /// classifies as a run: under 3 tiles fails MinLength, anything else
    /// fails BadTile on some pair.
    fn get_tiles_as_run(&self) -> (r: Result<Vec<Tile>, SetError>)
        requires
            all_valid(self.tiles@),
        ensures
            r == Err::<Vec<Tile>, SetError>(
                if self.tiles@.len() < 3 {
                    SetError::MinLength
                } else {
                    SetError::BadTile
                },
            ),
    {
        let n = self.tiles.len();
        if n < 3 {
            return Err(SetError::MinLength);
        }
        let v0 = self.tiles[0].value;
        let mut i: usize = 1;
        while i < n
            invariant
                1 <= i <= n,
                3 <= n == self.tiles@.len(),
                v0 == self.tiles@[0].value,
                forall|j: int| 0 <= j < i ==> self.tiles@[j].value == v0,
            decreases n - i,
        {
            if self.tiles[i].value != v0 {
                return Err(SetError::BadTile);
            }
            i += 1;
        }
        // consecutive-pair inspection with joker substitution; every pair
        // holds two equal face values, so the first pair already fails
        let mut p: usize = 0;
        while p + 1 < n
            invariant
                p == 0,
                n >= 3,
                n == self.tiles@.len(),
                all_valid(self.tiles@),
                v0 == self.tiles@[0].value,
                forall|j: int| 0 <= j < n ==> self.tiles@[j].value == v0,
            decreases n - p,
        {
            let a = self.tiles[p];
            let b = self.tiles[p + 1];
            if a.is_joker() || b.is_joker() {
                // a joker in a pair means the shared face value is the
                // joker's zero, so every tile here is a joker and the value
                // one below zero that the substitution would need falls
                // outside the tile range: the pair cannot be consecutive
                return Err(SetError::BadTile);
            } else {
                if b.value - a.value != 1 {
                    return Err(SetError::BadTile);
                }
                p += 1;
            }
        }
        Err(SetError::BadTile)
    }

    /// The group interpretation: 3 or 4 tiles, non-joker colors pairwise
    /// distinct; jokers are resolved to the first non-joker tile's value. A
    /// set entirely of jokers anchors no common value and fails.
    fn get_tiles_as_group(&self) -> (r: Result<Vec<Tile>, SetError>)
        requires
            all_valid(self.tiles@),
        ensures
            match r {
                Ok(v) => group_ok(self.tiles@) && v@ == resolved_group(self.tiles@),
                Err(e) => !group_ok(self.tiles@) && e == (if self.tiles@.len() < 3 {
                    SetError::MinLength
                } else if self.tiles@.len() > 4 {
                    SetError::MaxLength
                } else {
                    SetError::BadTile
                }),
            },
    {
        let n = self.tiles.len();
        if n < 3 {
            return Err(SetError::MinLength);
        }
        if n > 4 {
            return Err(SetError::MaxLength);
        }
        let mut i: usize = 0;
        while i < n
            invariant
                i <= n,
                3 <= n <= 4,
                n == self.tiles@.len(),
                forall|a: int, b: int|
                    0 <= a < b < i && !self.tiles@[a].spec_is_joker()
                        && !self.tiles@[b].spec_is_joker() ==> self.tiles@[a].color
                        != self.tiles@[b].color,
            decreases n - i,
        {
            if !self.tiles[i].is_joker() {
                let mut j: usize = 0;
                while j < i
                    invariant
                        j <= i < n,
                        3 <= n <= 4,
                        n == self.tiles@.len(),
                        !self.tiles@[i as int].spec_is_joker(),
                        forall|a: int|
                            0 <= a < j && !self.tiles@[a].spec_is_joker()
                                ==> self.tiles@[a].color != self.tiles@[i as int].color,
                    decreases i - j,
                {
                    if !self.tiles[j].is_joker() && self.tiles[j].color == self.tiles[i].color {
                        proof {
                            assert(!distinct_colors(self.tiles@)) by {
                                if distinct_colors(self.tiles@) {
                                    assert(self.tiles@[j as int].color
                                        != self.tiles@[i as int].color);
                                }
                            }
                        }
                        return Err(SetError::BadTile);
                    }
                    j += 1;
                }
            }
            i += 1;
        }
        // the common value comes from the first non-joker tile; a set
        // entirely of jokers has none and fails
        let mut k: usize = 0;
        while k < n && self.tiles[k].is_joker()
            invariant
                k <= n,
                n == self.tiles@.len(),
                3 <= n <= 4,
                forall|j: int| 0 <= j < k ==> self.tiles@[j].spec_is_joker(),
            decreases n - k,
        {
            k += 1;
        }
        if k == n {
            proof {
                assert(all_jokers(self.tiles@));
            }
            return Err(SetError::BadTile);
        }
        let value = self.tiles[k].value;
        proof {
            lemma_group_value(self.tiles@, k as int);
        }
        let ghost resolved = resolved_group(self.tiles@);
        let mut out: Vec<Tile> = Vec::new();
        let mut i: usize = 0;
        while i < n
            invariant
                i <= n,
                n == self.tiles@.len(),
                value == group_value(self.tiles@),
                resolved == resolved_group(self.tiles@),
                out@ =~= resolved.take(i as int),
            decreases n - i,
        {
            let t = self.tiles[i];
            if t.is_joker() {
                out.push(Tile { id: t.id, value, color: t.color });
            } else {
                out.push(t);
            }
            i += 1;
        }
        proof {
            assert(out@ =~= resolved);
        }
        Ok(out)
    }

    /// Tries the group interpretation first, then the run interpretation:
    /// a set ambiguous between the two reports as a group.
    pub fn get_order(&self) -> (r: Option<SetOrder>)
        requires
            all_valid(self.tiles@),
        ensures
            r == if group_ok(self.tiles@) {
                Some(SetOrder::Group)
            } else {
                None::<SetOrder>
            },
    {
        if self.get_tiles_as_group().is_ok() {
            return Some(SetOrder::Group);
        }
        if self.get_tiles_as_run().is_ok() {
            return Some(SetOrder::Run);
        }
        None
    }

    fn sum_tiles(tiles: &Vec<Tile>) -> (r: u8)
        requires
            raw_sum(tiles@) <= 255,
        ensures
            r as int == raw_sum(tiles@),
    {
        let mut acc: u8 = 0;
        let mut i: usize = 0;
        while i < tiles.len()
            invariant
                i <= tiles@.len(),
                raw_sum(tiles@) <= 255,
                acc as int == raw_sum(tiles@.take(i as int)),
            decreases tiles@.len() - i,
        {
            proof {
                assert(tiles@.take(i + 1).drop_last() =~= tiles@.take(i as int));
                assert(tiles@.take(i + 1).last() == tiles@[i as int]);
                lemma_raw_sum_prefix(tiles@, i + 1);
                lemma_raw_sum_nonneg(tiles@.take(i as int));
            }
            acc = acc + tiles[i].value;
            i += 1;
        }
        proof {
            assert(tiles@.take(tiles@.len() as int) =~= tiles@);
        }
        acc
    }

    /// The set's score. With a joker present, the better of the run and the
    /// group interpretation (a failed one scores 0); otherwise the plain sum
    /// of stored values. The plain sum must fit the result type.
    pub fn get_sum(&self) -> (r: u8)
        requires
            all_valid(self.tiles@),
            !has_joker(self.tiles@) ==> raw_sum(self.tiles@) <= 255,
        ensures
            r as int == spec_sum(self.tiles@),
    {
        let n = self.tiles.len();
        let mut joker_present = false;
        let mut i: usize = 0;
        while i < n
            invariant
                i <= n,
                n == self.tiles@.len(),
                joker_present == exists|j: int| 0 <= j < i && self.tiles@[j].spec_is_joker(),
            decreases n - i,
        {
            if self.tiles[i].is_joker() {
                joker_present = true;
            }
            i += 1;
        }
        if joker_present {
            let run_total: u8 = match self.get_tiles_as_run() {
                Ok(v) => {
                    proof {
                        assert(false);
                    }
                    TileSet::sum_tiles(&v)
                },
                Err(_) => 0,
            };
            let group_total: u8 = match self.get_tiles_as_group() {
                Ok(v) => {
                    proof {
                        lemma_group_value_range(self.tiles@);
                        assert(forall|j: int|
                            0 <= j < v@.len() ==> v@[j].value <= 13);
                        lemma_raw_sum_bound(v@, 13);
                    }
                    TileSet::sum_tiles(&v)
                },
                Err(_) => 0,
            };
            proof {
                if group_ok(self.tiles@) {
                    lemma_raw_sum_nonneg(resolved_group(self.tiles@));
                }
            }
            if run_total > group_total {
                run_total
            } else {
                group_total
            }
        } else {
            TileSet::sum_tiles(&self.tiles)
        }
    }

    pub fn get_tiles(&self) -> (r: &Vec<Tile>)
        ensures
            r == self.tiles,
    {
        &self.tiles
    }

    pub fn get_tiles_mut(&mut self) -> (r: &mut Vec<Tile>)
        ensures
            *r == old(self).tiles,
            final(self).tiles == *final(r),
            final(self).id == old(self).id,
    {
        &mut self.tiles
    }

    /// Inserts at `index`, preserving order; out-of-range indices fail.
    pub fn add_tile(&mut self, tile: Tile, index: usize) -> (r: Result<(), SetError>)
        ensures
            final(self).id == old(self).id,
            if index > old(self).tiles@.len() {
                r == Err::<(), SetError>(SetError::OutOfBounds)
                    && final(self).tiles == old(self).tiles
            } else {
                r == Ok::<(), SetError>(())
                    && final(self).tiles@ == old(self).tiles@.insert(index as int, tile)
            },
    {
        if index > self.tiles.len() {
            return Err(SetError::OutOfBounds);
        }
        self.tiles.insert(index, tile);
        Ok(())
    }

    /// Removes the first tile that `tile_id` denotes, returning it together
    /// with its former position.
    pub fn remove_tile_with_index(&mut self, tile_id: Identifier) -> (r: Option<(usize, Tile)>)
        ensures
            final(self).id == old(self).id,
            match first_match(old(self).tiles@, tile_id) {
                None => r == None::<(usize, Tile)> && final(self).tiles == old(self).tiles,
                Some(k) => r == Some((k as usize, old(self).tiles@[k])) && (k as usize) as int
                    == k && final(self).tiles@ == old(self).tiles@.remove(k),
            },
    {
        proof {
            lemma_first_match(self.tiles@, tile_id);
        }
        let mut i: usize = 0;
        while i < self.tiles.len()
            invariant
                i <= self.tiles@.len(),
                *self == *old(self),
                forall|j: int| 0 <= j < i ==> !tile_id.spec_matches(self.tiles@[j].id),
            decreases self.tiles@.len() - i,
        {
            if tile_id.matches_id(self.tiles[i].id) {
                proof {
                    lemma_first_match(self.tiles@, tile_id);
                }
                let t = self.tiles.remove(i);
                return Some((i, t));
            }
            i += 1;
        }
        None
    }

    /// Removes the first tile that `tile_id` denotes and returns it.
    pub fn remove_tile(&mut self, tile_id: Identifier) -> (r: Option<Tile>)
        ensures
            final(self).id == old(self).id,
            match first_match(old(self).tiles@, tile_id) {
                None => r == None::<Tile> && final(self).tiles == old(self).tiles,
                Some(k) => r == Some(old(self).tiles@[k])
                    && final(self).tiles@ == old(self).tiles@.remove(k),
            },
    {
        match self.remove_tile_with_index(tile_id) {
            Some((_, t)) => Some(t),
            None => None,
        }
    }

    /// A set is valid exactly when it classifies as a run or a group. Both
    /// interpretations are tried (run first); when both fail, the group
    /// interpretation's error is reported: under 3 tiles MinLength, over 4
    /// MaxLength, otherwise BadTile.
    pub fn validate(&self) -> (r: Result<(), SetError>)
        requires
            all_valid(self.tiles@),
        ensures
            r == if group_ok(self.tiles@) {
                Ok::<(), SetError>(())
            } else {
                Err::<(), SetError>(
                    if self.tiles@.len() < 3 {
                        SetError::MinLength
                    } else if self.tiles@.len() > 4 {
                        SetError::MaxLength
                    } else {
                        SetError::BadTile
                    },
                )
            },
    {
        match self.get_tiles_as_run() {
            Ok(_) => Ok(()),
            Err(_) => match self.get_tiles_as_group() {
                Ok(_) => Ok(()),
                Err(e) => Err(e),
            },
        }
    }

    pub fn len(&self) -> (r: usize)
        ensures
            r == self.tiles@.len(),
    {
        self.tiles.len()
    }
}

} // verus!
