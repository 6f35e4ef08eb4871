//! The entity store: an arena of tagged records indexed by stable handles.
//! A handle is the index of a slot; destruction clears the slot and never
//! moves other entities, so live handles stay valid while others are
//! created or destroyed.

use vstd::prelude::*;
use crate::geometry::Vec2i;
use crate::geometry::near_unit;

verus! {

/// A ball, moving with a fixed speed along `direction` (a near-unit vector
/// scaled by `DIR_SCALE`).
#[derive(Clone, Copy, PartialEq, Eq, Structural, Debug)]
pub struct Ball {
    pub direction: Vec2i,
}

/// A brick with its remaining hit points.
#[derive(Clone, Copy, PartialEq, Eq, Structural, Debug)]
pub struct Brick {
    pub hp: u8,
}

/// The player's paddle.
#[derive(Clone, Copy, PartialEq, Eq, Structural, Debug)]
pub struct Paddle {}

/// A falling collectible; collecting it spawns an extra ball.
#[derive(Clone, Copy, PartialEq, Eq, Structural, Debug)]
pub struct PowerUp {}

/// The per-kind payload of an entity.
#[derive(Clone, Copy, PartialEq, Eq, Structural, Debug)]
pub enum EntityData {
    BallData(Ball),
    PaddleData(Paddle),
    BrickData(Brick),
    PowerUpData(PowerUp),
}

/// One live game object: a position plus its per-kind state.
#[derive(Clone, Copy, PartialEq, Eq, Structural, Debug)]
pub struct Entity {
    pub pos: Vec2i,
    pub data: EntityData,
}

/// The kinds an entity can have, for filtered iteration and counting.
#[derive(Clone, Copy, PartialEq, Eq, Structural, Debug)]
pub enum Kind {
    BallKind,
    PaddleKind,
    BrickKind,
    PowerUpKind,
}

pub open spec fn kind_of(e: Entity) -> Kind {
    match e.data {
        EntityData::BallData(_) => Kind::BallKind,
        EntityData::PaddleData(_) => Kind::PaddleKind,
        EntityData::BrickData(_) => Kind::BrickKind,
        EntityData::PowerUpData(_) => Kind::PowerUpKind,
    }
}

/// Whether slot content `s` holds a live entity of kind `k`.
pub open spec fn is_kind(s: Option<Entity>, k: Kind) -> bool {
    match s {
        Some(e) => kind_of(e) == k,
        None => false,
    }
}

/// Number of live entities of kind `k` among the first `i` slots.
pub open spec fn count_kind_to(s: Seq<Option<Entity>>, k: Kind, i: int) -> int
    decreases i,
{
    if i <= 0 {
        0
    } else {
        count_kind_to(s, k, i - 1) + if is_kind(s[i - 1], k) {
            1int
        } else {
            0int
        }
    }
}

/// Number of live entities of kind `k` in the whole store.
pub open spec fn count_kind(s: Seq<Option<Entity>>, k: Kind) -> int {
    count_kind_to(s, k, s.len() as int)
}

/// The count over a prefix lies between 0 and the prefix length.
pub proof fn lemma_count_bounds(s: Seq<Option<Entity>>, k: Kind, i: int)
    requires
        0 <= i <= s.len(),
    ensures
        0 <= count_kind_to(s, k, i) <= i,
    decreases i,
{
    if i > 0 {
        lemma_count_bounds(s, k, i - 1);
    }
}

/// Counting looks only at the slots below `i`.
pub proof fn lemma_count_agree(s1: Seq<Option<Entity>>, s2: Seq<Option<Entity>>, k: Kind, i: int)
    requires
        0 <= i <= s1.len(),
        i <= s2.len(),
        forall|j: int| 0 <= j < i ==> s1[j] == s2[j],
    ensures
        count_kind_to(s1, k, i) == count_kind_to(s2, k, i),
    decreases i,
{
    if i > 0 {
        lemma_count_agree(s1, s2, k, i - 1);
    }
}

/// How the count changes when one slot is overwritten.
pub proof fn lemma_count_update(
    s: Seq<Option<Entity>>,
    k: Kind,
    j: int,
    v: Option<Entity>,
    i: int,
)
    requires
        0 <= j < s.len(),
        0 <= i <= s.len(),
    ensures
        count_kind_to(s.update(j, v), k, i) == count_kind_to(s, k, i) + if j < i {
            (if is_kind(v, k) {
                1int
            } else {
                0int
            }) - (if is_kind(s[j], k) {
                1int
            } else {
                0int
            })
        } else {
            0int
        },
    decreases i,
{
    if i > 0 {
        lemma_count_update(s, k, j, v, i - 1);
    }
}

/// The count over a prefix grows with the prefix.
pub proof fn lemma_count_mono(s: Seq<Option<Entity>>, k: Kind, i: int, j: int)
    requires
        0 <= i <= j <= s.len(),
    ensures
        count_kind_to(s, k, i) <= count_kind_to(s, k, j),
    decreases j,
{
    if i < j {
        lemma_count_mono(s, k, i, j - 1);
    }
}

/// A slot of kind `k` below `i` contributes to the count up to `i`.
pub proof fn lemma_count_member(s: Seq<Option<Entity>>, k: Kind, j: int, i: int)
    requires
        0 <= j < i <= s.len(),
        is_kind(s[j], k),
    ensures
        count_kind_to(s, k, i) >= 1,
{
    lemma_count_bounds(s, k, j);
    lemma_count_mono(s, k, j + 1, i);
}

/// A positive count yields a slot of that kind.
pub proof fn lemma_count_exists(s: Seq<Option<Entity>>, k: Kind, i: int)
    requires
        0 <= i <= s.len(),
        count_kind_to(s, k, i) >= 1,
    ensures
        exists|j: int| 0 <= j < i && is_kind(#[trigger] s[j], k),
    decreases i,
{
    if i > 0 {
        if is_kind(s[i - 1], k) {
            assert(0 <= i - 1 < i && is_kind(s[i - 1], k));
        } else {
            lemma_count_exists(s, k, i - 1);
        }
    }
}

/// When exactly one entity of kind `k` lives in the store, two indices of
/// that kind coincide.
pub proof fn lemma_count_unique(s: Seq<Option<Entity>>, k: Kind, a: int, b: int)
    requires
        count_kind(s, k) == 1,
        0 <= a < s.len(),
        0 <= b < s.len(),
        is_kind(s[a], k),
        is_kind(s[b], k),
    ensures
        a == b,
{
    if a < b {
        lemma_count_bounds(s, k, a);
        lemma_count_member(s, k, a, b);
        lemma_count_mono(s, k, b + 1, s.len() as int);
        assert(count_kind_to(s, k, b + 1) == count_kind_to(s, k, b) + 1);
    } else if b < a {
        lemma_count_bounds(s, k, b);
        lemma_count_member(s, k, b, a);
        lemma_count_mono(s, k, a + 1, s.len() as int);
        assert(count_kind_to(s, k, a + 1) == count_kind_to(s, k, a) + 1);
    }
}

/// Two stores whose slots agree on holding kind `k` have the same count.
pub proof fn lemma_count_eq_pointwise(s1: Seq<Option<Entity>>, s2: Seq<Option<Entity>>, k: Kind, i: int)
    requires
        0 <= i <= s1.len(),
        i <= s2.len(),
        forall|j: int| 0 <= j < i ==> (is_kind(#[trigger] s1[j], k) <==> is_kind(#[trigger] s2[j], k)),
    ensures
        count_kind_to(s1, k, i) == count_kind_to(s2, k, i),
    decreases i,
{
    if i > 0 {
        lemma_count_eq_pointwise(s1, s2, k, i - 1);
    }
}

/// Slots without kind `k` do not change the count.
pub proof fn lemma_count_skip_nonkind(s: Seq<Option<Entity>>, k: Kind, l: int, m: int)
    requires
        0 <= l <= m <= s.len(),
        forall|j: int| l <= j < m ==> !is_kind(#[trigger] s[j], k),
    ensures
        count_kind_to(s, k, m) == count_kind_to(s, k, l),
    decreases m,
{
    if l < m {
        lemma_count_skip_nonkind(s, k, l, m - 1);
    }
}

/// A store that only loses entities of kind `k` slot by slot has at most
/// the old count.
pub proof fn lemma_count_le_pointwise(s1: Seq<Option<Entity>>, s2: Seq<Option<Entity>>, k: Kind, i: int)
    requires
        0 <= i <= s1.len(),
        i <= s2.len(),
        forall|j: int| 0 <= j < i ==> (is_kind(#[trigger] s2[j], k) ==> is_kind(#[trigger] s1[j], k)),
    ensures
        count_kind_to(s2, k, i) <= count_kind_to(s1, k, i),
    decreases i,
{
    if i > 0 {
        lemma_count_le_pointwise(s1, s2, k, i - 1);
    }
}

/// A position bound may always be loosened.
pub proof fn lemma_positions_widen(s: Seq<Option<Entity>>, b1: int, b2: int)
    requires
        positions_within(s, b1),
        b1 <= b2,
    ensures
        positions_within(s, b2),
{
    assert forall|i: int| 0 <= i < s.len() implies slot_pos_within(#[trigger] s[i], b2) by {
        assert(slot_pos_within(s[i], b1));
    }
}

/// A run of slots all of kind `k` adds its length to the count.
pub proof fn lemma_count_all_kind(s: Seq<Option<Entity>>, k: Kind, l: int, m: int)
    requires
        0 <= l <= m <= s.len(),
        forall|j: int| l <= j < m ==> is_kind(#[trigger] s[j], k),
    ensures
        count_kind_to(s, k, m) == count_kind_to(s, k, l) + (m - l),
    decreases m,
{
    if l < m {
        lemma_count_all_kind(s, k, l, m - 1);
    }
}

/// Appending a slot adds its contribution to the count.
pub proof fn lemma_count_push(s: Seq<Option<Entity>>, k: Kind, v: Option<Entity>)
    ensures
        count_kind(s.push(v), k) == count_kind(s, k) + if is_kind(v, k) {
            1int
        } else {
            0int
        },
{
    lemma_count_agree(s.push(v), s, k, s.len() as int);
    assert(s.push(v)[s.len() as int] == v);
}

/// A slot is well formed when a ball in it carries a near-unit direction
/// and a brick in it has at least one hit point.
pub open spec fn slot_wf(s: Option<Entity>) -> bool {
    match s {
        Some(e) => match e.data {
            EntityData::BallData(b) => near_unit(b.direction),
            EntityData::BrickData(br) => br.hp >= 1,
            _ => true,
        },
        None => true,
    }
}

/// The entity in the slot, if any, lies within `b` of the origin on both
/// axes.
pub open spec fn slot_pos_within(s: Option<Entity>, b: int) -> bool {
    match s {
        Some(e) => -b <= e.pos.x <= b && -b <= e.pos.y <= b,
        None => true,
    }
}

/// All balls carry near-unit directions and all bricks at least one hit
/// point; constructors establish this and every stage preserves it.
pub open spec fn entities_wf(s: Seq<Option<Entity>>) -> bool {
    forall|i: int| 0 <= i < s.len() ==> slot_wf(#[trigger] s[i])
}

/// All positions lie within `b` of the origin on both axes.
pub open spec fn positions_within(s: Seq<Option<Entity>>, b: int) -> bool {
    forall|i: int| 0 <= i < s.len() ==> slot_pos_within(#[trigger] s[i], b)
}

/// The arena. Slots are never reused within a play session: `create`
/// appends, `destroy` clears in place, so a handle keeps meaning the same
/// entity for as long as that entity lives.
pub struct EntityStore {
    pub slots: Vec<Option<Entity>>,
}

impl EntityStore {
    pub open spec fn view(&self) -> Seq<Option<Entity>> {
        self.slots@
    }

    pub fn new() -> (s: EntityStore)
        ensures
            s@.len() == 0,
    {
        EntityStore { slots: Vec::new() }
    }

    pub fn len(&self) -> (n: usize)
        ensures
            n == self@.len(),
    {
        self.slots.len()
    }

    /// Issues a fresh handle for `e`; every existing slot is untouched.
    pub fn create(&mut self, e: Entity) -> (h: usize)
        ensures
            final(self)@ == old(self)@.push(Some(e)),
            h == old(self)@.len(),
    {
        let h = self.slots.len();
        self.slots.push(Some(e));
        h
    }

    /// Clears the slot of `h`; every other slot is untouched.
    pub fn destroy(&mut self, h: usize)
        requires
            h < old(self)@.len(),
        ensures
            final(self)@ == old(self)@.update(h as int, None),
    {
        self.slots[h] = None;
    }

    pub fn get(&self, h: usize) -> (r: &Option<Entity>)
        requires
            h < self@.len(),
        ensures
            *r == self@[h as int],
    {
        &self.slots[h]
    }

    /// Counts the live entities of kind `k`.
    pub fn count(&self, k: Kind) -> (n: usize)
        ensures
            n == count_kind(self@, k),
    {
        let mut n: usize = 0;
        let mut i: usize = 0;
        let end = self.slots.len();
        while i < end
            invariant
                end == self@.len(),
                0 <= i <= end,
                n == count_kind_to(self@, k, i as int),
                n <= i,
            decreases end - i,
        {
            match &self.slots[i] {
                Some(e) => {
                    let matches_kind = match (&e.data, k) {
                        (EntityData::BallData(_), Kind::BallKind) => true,
                        (EntityData::PaddleData(_), Kind::PaddleKind) => true,
                        (EntityData::BrickData(_), Kind::BrickKind) => true,
                        (EntityData::PowerUpData(_), Kind::PowerUpKind) => true,
                        _ => false,
                    };
                    if matches_kind {
                        n = n + 1;
                    }
                },
                None => {},
            }
            i = i + 1;
        }
        n
    }
}

} // verus!
