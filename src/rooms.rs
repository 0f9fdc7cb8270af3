use rand::seq::SliceRandom;
use vstd::prelude::*;

verus! {

/// World units spanned by one room of the level layout.
pub const ROOM_SPAN: i32 = 192;

/// Integer division rounded toward zero, for a positive divisor.
pub open spec fn trunc_div(a: int, d: int) -> int {
    if a >= 0 {
        a / d
    } else {
        -((-a) / d)
    }
}

/// Index in the layout of the room that holds world coordinate `world`.
pub open spec fn spec_layout_index(world: int) -> int {
    trunc_div(world, ROOM_SPAN as int)
}

/// Index in the layout of the room that holds world coordinate `world`,
/// rounded toward zero as integer division is.
pub fn layout_index(world: i32) -> (r: i32)
    ensures
        r as int == spec_layout_index(world as int),
{
    world / ROOM_SPAN
}

/// Difficulty that no room starts above, whatever its levels.
pub const START_DIFFICULTY_CAP: i32 = 5;

/// One room of the layout: which it is, the difficulty it is played at and
/// the highest difficulty that the layout has a level for.
#[derive(Clone, Copy, PartialEq, Eq, Structural, Debug)]
pub struct Room {
    pub id: i32,
    pub difficulty: i32,
    pub max_difficulty: i32,
}

/// Room that a level at world position `level` belongs to.
pub open spec fn level_room(level: (i32, i32)) -> int {
    spec_layout_index(level.0 as int)
}

/// Difficulty of a level at world position `level`.
pub open spec fn level_difficulty(level: (i32, i32)) -> int {
    spec_layout_index(level.1 as int)
}

/// Some level belongs to room `id`.
pub open spec fn has_room(levels: Seq<(i32, i32)>, id: int) -> bool {
    exists|k: int| 0 <= k < levels.len() && level_room(#[trigger] levels[k]) == id
}

/// Difficulty at which room `id` starts: the lowest of its levels', and no
/// more than the cap.
pub open spec fn lowest_difficulty(levels: Seq<(i32, i32)>, id: int) -> int
    decreases levels.len(),
{
    if levels.len() == 0 {
        START_DIFFICULTY_CAP as int
    } else {
        let rest = lowest_difficulty(levels.drop_last(), id);
        let l = levels.last();
        if level_room(l) == id && level_difficulty(l) < rest {
            level_difficulty(l)
        } else {
            rest
        }
    }
}

/// Highest difficulty of the levels of room `id`, and no less than zero.
pub open spec fn highest_difficulty(levels: Seq<(i32, i32)>, id: int) -> int
    decreases levels.len(),
{
    if levels.len() == 0 {
        0
    } else {
        let rest = highest_difficulty(levels.drop_last(), id);
        let l = levels.last();
        if level_room(l) == id && level_difficulty(l) > rest {
            level_difficulty(l)
        } else {
            rest
        }
    }
}

/// `room` is room `room.id` of the layout, with the difficulties of its levels.
pub open spec fn room_of_levels(room: Room, levels: Seq<(i32, i32)>) -> bool {
    &&& has_room(levels, room.id as int)
    &&& room.difficulty == lowest_difficulty(levels, room.id as int)
    &&& room.max_difficulty == highest_difficulty(levels, room.id as int)
}

/// `rooms` lists every room that has a level, once each, with the
/// difficulties of its levels.
pub open spec fn rooms_of_levels(rooms: Seq<Room>, levels: Seq<(i32, i32)>) -> bool {
    &&& forall|i: int, j: int|
        0 <= i < rooms.len() && 0 <= j < rooms.len() && i != j ==> #[trigger] rooms[i].id
            != #[trigger] rooms[j].id
    &&& forall|i: int| 0 <= i < rooms.len() ==> room_of_levels(#[trigger] rooms[i], levels)
    &&& forall|k: int| 0 <= k < levels.len() ==> lists_room(rooms, level_room(#[trigger] levels[k]))
}

/// Room `id` is in the list.
pub open spec fn lists_room(rooms: Seq<Room>, id: int) -> bool {
    exists|i: int| 0 <= i < rooms.len() && #[trigger] rooms[i].id == id
}

/// A room that no level belongs to starts at the cap and tops out at zero.
proof fn lemma_roomless_difficulties(levels: Seq<(i32, i32)>, id: int)
    requires
        !has_room(levels, id),
    ensures
        lowest_difficulty(levels, id) == START_DIFFICULTY_CAP,
        highest_difficulty(levels, id) == 0,
    decreases levels.len(),
{
    if levels.len() > 0 {
        let rest = levels.drop_last();
        assert(!has_room(rest, id)) by {
            if has_room(rest, id) {
                let k = choose|k: int| 0 <= k < rest.len() && level_room(#[trigger] rest[k]) == id;
                assert(levels[k] == rest[k]);
            }
        }
        assert(level_room(levels[levels.len() - 1]) != id);
        lemma_roomless_difficulties(rest, id);
    }
}

fn find_room(rooms: &Vec<Room>, id: i32) -> (r: Option<usize>)
    ensures
        r matches Some(i) ==> i < rooms@.len() && rooms@[i as int].id == id,
        r is None ==> forall|i: int| 0 <= i < rooms@.len() ==> #[trigger] rooms@[i].id != id,
{
    let mut i: usize = 0;
    while i < rooms.len()
        invariant
            i <= rooms@.len(),
            forall|j: int| 0 <= j < i ==> #[trigger] rooms@[j].id != id,
        decreases rooms@.len() - i,
    {
        if rooms[i].id == id {
            return Some(i);
        }
        i = i + 1;
    }
    None
}

/// The rooms that the levels at world positions `levels` make up, in the
/// order in which each first appears.
pub fn rooms_from_levels(levels: &Vec<(i32, i32)>) -> (rooms: Vec<Room>)
    ensures
        rooms_of_levels(rooms@, levels@),
{
    let mut rooms: Vec<Room> = Vec::new();
    let mut k: usize = 0;
    while k < levels.len()
        invariant
            k <= levels@.len(),
            rooms_of_levels(rooms@, levels@.take(k as int)),
        decreases levels@.len() - k,
    {
        let (wx, wy) = levels[k];
        let id = layout_index(wx);
        let d = layout_index(wy);
        let ghost pre = levels@.take(k as int);
        let ghost post = levels@.take(k + 1);
        let ghost old_rooms = rooms@;
        proof {
            assert(post.drop_last() == pre);
            assert(post.last() == levels@[k as int]);
            assert(level_room(post.last()) == id);
            assert(level_difficulty(post.last()) == d);
            assert forall|x: int| #[trigger] has_room(post, x) <==> (has_room(pre, x) || x == id) by {
                if has_room(post, x) {
                    let j = choose|j: int| 0 <= j < post.len() && level_room(#[trigger] post[j]) == x;
                    if j < pre.len() {
                        assert(pre[j] == post[j]);
                    }
                }
                if has_room(pre, x) {
                    let j = choose|j: int| 0 <= j < pre.len() && level_room(#[trigger] pre[j]) == x;
                    assert(pre[j] == post[j]);
                }
                if x == id {
                    assert(level_room(post[k as int]) == x);
                }
            }
        }
        let ghost mut slot: int = 0;
        match find_room(&rooms, id) {
            Some(i) => {
                proof {
                    slot = i as int;
                }
                let r = rooms[i];
                let low = if d < r.difficulty { d } else { r.difficulty };
                let high = if d > r.max_difficulty { d } else { r.max_difficulty };
                rooms.set(i, Room { id, difficulty: low, max_difficulty: high });
            },
            None => {
                proof {
                    assert(!has_room(pre, id as int)) by {
                        if has_room(pre, id as int) {
                            let j = choose|j: int|
                                0 <= j < pre.len() && level_room(#[trigger] pre[j]) == id;
                            assert(lists_room(old_rooms, level_room(pre[j])));
                        }
                    }
                    lemma_roomless_difficulties(pre, id as int);
                }
                let low = if d < START_DIFFICULTY_CAP { d } else { START_DIFFICULTY_CAP };
                let high = if d > 0 { d } else { 0 };
                rooms.push(Room { id, difficulty: low, max_difficulty: high });
                proof {
                    slot = old_rooms.len() as int;
                }
            },
        }
        proof {
            assert forall|i: int| 0 <= i < rooms@.len() implies room_of_levels(
                #[trigger] rooms@[i],
                post,
            ) by {
                if i < old_rooms.len() && rooms@[i] == old_rooms[i] {
                    assert(room_of_levels(old_rooms[i], pre));
                }
            }
            assert forall|j: int| 0 <= j < post.len() implies lists_room(
                rooms@,
                level_room(#[trigger] post[j]),
            ) by {
                if j < pre.len() {
                    assert(pre[j] == post[j]);
                    assert(lists_room(old_rooms, level_room(pre[j])));
                    let i = choose|i: int|
                        0 <= i < old_rooms.len() && #[trigger] old_rooms[i].id == level_room(pre[j]);
                    assert(rooms@[i].id == old_rooms[i].id);
                } else {
                    assert(post[j] == post.last());
                    assert(rooms@[slot].id == level_room(post[j]));
                }
            }
        }
        k = k + 1;
    }
    proof {
        assert(levels@.take(levels@.len() as int) == levels@);
    }
    rooms
}

/// Relies on rand's `SliceRandom::shuffle` over `thread_rng`: it permutes the
/// items in place by swaps, so the same items stay, in some order.
#[verifier::external_body]
fn shuffle<T>(v: &mut Vec<T>)
    ensures
        final(v)@.to_multiset() == old(v)@.to_multiset(),
{
    v.shuffle(&mut rand::thread_rng());
}

/// Reordering a list of rooms keeps it the list of rooms of the levels.
proof fn lemma_reordered_rooms(a: Seq<Room>, b: Seq<Room>, levels: Seq<(i32, i32)>)
    requires
        rooms_of_levels(a, levels),
        b.to_multiset() == a.to_multiset(),
    ensures
        rooms_of_levels(b, levels),
{
    broadcast use vstd::seq_lib::to_multiset_contains;

    assert forall|x: Room| #[trigger] b.contains(x) <==> a.contains(x) by {
        vstd::seq_lib::to_multiset_contains(b, x);
        vstd::seq_lib::to_multiset_contains(a, x);
    }
    assert(a.no_duplicates());
    a.lemma_multiset_has_no_duplicates();
    assert forall|x: Room| #[trigger] b.to_multiset().contains(x) implies b.to_multiset().count(x)
        == 1 by {
        assert(a.to_multiset().contains(x));
    }
    b.lemma_multiset_has_no_duplicates_conv();
    assert forall|i: int| 0 <= i < b.len() implies room_of_levels(#[trigger] b[i], levels) by {
        assert(b.contains(b[i]));
    }
    assert forall|i: int, j: int|
        0 <= i < b.len() && 0 <= j < b.len() && i != j implies #[trigger] b[i].id
        != #[trigger] b[j].id by {
        assert(b.contains(b[i]) && b.contains(b[j]));
        let p = choose|p: int| 0 <= p < a.len() && a[p] == b[i];
        let q = choose|q: int| 0 <= q < a.len() && a[q] == b[j];
        if p != q {
            assert(a[p].id != a[q].id);
        }
    }
    assert forall|k: int| 0 <= k < levels.len() implies lists_room(b, level_room(#[trigger] levels[k])) by {
        assert(lists_room(a, level_room(levels[k])));
        let p = choose|p: int| 0 <= p < a.len() && #[trigger] a[p].id == level_room(levels[k]);
        assert(a.contains(a[p]));
        assert(b.contains(a[p]));
        let i = choose|i: int| 0 <= i < b.len() && b[i] == a[p];
        assert(b[i].id == level_room(levels[k]));
    }
}

/// Two distinct indices below `n`, drawn at random.
fn pick_two(n: usize) -> (r: (usize, usize))
    requires
        n >= 2,
    ensures
        r.0 < n,
        r.1 < n,
        r.0 != r.1,
{
    broadcast use vstd::seq_lib::to_multiset_contains;

    let mut order: Vec<usize> = Vec::new();
    let mut i: usize = 0;
    while i < n
        invariant
            i <= n,
            order@.len() == i,
            forall|j: int| 0 <= j < i ==> order@[j] == j,
        decreases n - i,
    {
        order.push(i);
        i = i + 1;
    }
    let ghost before = order@;
    assert(before.no_duplicates());
    proof {
        before.lemma_multiset_has_no_duplicates();
    }
    shuffle(&mut order);
    proof {
        let after = order@;
        assert forall|x: usize| #[trigger] after.to_multiset().contains(x) implies after.to_multiset().count(
            x,
        ) == 1 by {
            assert(before.to_multiset().contains(x));
        }
        after.lemma_multiset_has_no_duplicates_conv();
        assert(after.len() == before.len()) by {
            after.to_multiset_ensures();
            before.to_multiset_ensures();
        }
        assert forall|j: int| 0 <= j < after.len() implies #[trigger] after[j] < n by {
            assert(after.contains(after[j]));
            assert(after.to_multiset().count(after[j]) > 0);
            assert(before.contains(after[j]));
        }
    }
    (order[0], order[1])
}

/// A room after a completed cycle: one difficulty harder, up to its highest.
pub open spec fn raised(room: Room) -> Room {
    if room.difficulty < room.max_difficulty {
        Room { difficulty: (room.difficulty + 1) as i32, ..room }
    } else {
        room
    }
}

/// The order in which rooms are played, the room being played and how many
/// times every room has been cleared.
pub struct Cycle {
    pub rooms: Vec<Room>,
    pub current_room: usize,
    pub cycle: i32,
}

impl Cycle {
    /// A first cycle over the rooms of the levels at world positions
    /// `levels`, in random order.
    pub fn new(levels: &Vec<(i32, i32)>) -> (r: Cycle)
        ensures
            rooms_of_levels(r.rooms@, levels@),
            r.current_room == 0,
            r.cycle == 0,
    {
        let mut rooms = rooms_from_levels(levels);
        let ghost before = rooms@;
        shuffle(&mut rooms);
        proof {
            lemma_reordered_rooms(before, rooms@, levels@);
        }
        Cycle { rooms, current_room: 0, cycle: 0 }
    }

    /// Whether this is the first room of the first cycle.
    pub fn is_first_room(&self) -> (r: bool)
        ensures
            r == (self.current_room == 0 && self.cycle == 0),
    {
        self.current_room == 0 && self.cycle == 0
    }

    /// Number of enemies that the room being played spawns: none in the
    /// first room of the first cycle; elsewhere four, one more per completed
    /// cycle and one fewer per two levels of difficulty, but not below zero.
    pub open spec fn spec_enemy_count(&self) -> int {
        if self.current_room == 0 && self.cycle == 0 {
            0
        } else {
            let difficulty = self.rooms@[self.current_room as int].difficulty as int;
            let n = 4 + self.cycle - trunc_div(difficulty, 2);
            if n > 0 {
                n
            } else {
                0
            }
        }
    }

    pub fn enemy_count(&self) -> (r: i64)
        requires
            self.current_room < self.rooms@.len(),
        ensures
            r == self.spec_enemy_count(),
    {
        if self.is_first_room() {
            return 0;
        }
        let difficulty = self.rooms[self.current_room].difficulty;
        let n = 4 + self.cycle as i64 - (difficulty / 2) as i64;
        if n > 0 {
            n
        } else {
            0
        }
    }

    /// World position of the level of the room being played.
    pub fn current_level(&self) -> (r: (i64, i64))
        requires
            self.current_room < self.rooms@.len(),
        ensures
            r.0 == self.rooms@[self.current_room as int].id * ROOM_SPAN,
            r.1 == self.rooms@[self.current_room as int].difficulty * ROOM_SPAN,
    {
        let room = self.rooms[self.current_room];
        (room.id as i64 * ROOM_SPAN as i64, room.difficulty as i64 * ROOM_SPAN as i64)
    }

    /// Moves on to the next room; after the last one, starts the next cycle
    /// and makes rooms `first` and `second` one difficulty harder.
    pub fn advance_with(&mut self, first: usize, second: usize)
        requires
            old(self).current_room < old(self).rooms@.len(),
            first < old(self).rooms@.len(),
            second < old(self).rooms@.len(),
            first != second,
            old(self).cycle < i32::MAX,
        ensures
            old(self).current_room + 1 < old(self).rooms@.len() ==> {
                &&& final(self).rooms@ == old(self).rooms@
                &&& final(self).current_room == old(self).current_room + 1
                &&& final(self).cycle == old(self).cycle
            },
            old(self).current_room + 1 == old(self).rooms@.len() ==> {
                &&& final(self).rooms@ == old(self).rooms@.update(
                    first as int,
                    raised(old(self).rooms@[first as int]),
                ).update(second as int, raised(old(self).rooms@[second as int]))
                &&& final(self).current_room == 0
                &&& final(self).cycle == old(self).cycle + 1
            },
    {
        let n = self.rooms.len();
        self.current_room = self.current_room + 1;
        if self.current_room == n {
            self.current_room = 0;
            self.cycle = self.cycle + 1;
            self.raise(first);
            self.raise(second);
        }
    }

    fn raise(&mut self, i: usize)
        requires
            i < old(self).rooms@.len(),
        ensures
            final(self).rooms@ == old(self).rooms@.update(i as int, raised(old(self).rooms@[i as int])),
            final(self).current_room == old(self).current_room,
            final(self).cycle == old(self).cycle,
    {
        let room = self.rooms[i];
        if room.difficulty < room.max_difficulty {
            self.rooms.set(i, Room { difficulty: room.difficulty + 1, ..room });
        }
        proof {
            if room.difficulty >= room.max_difficulty {
                assert(self.rooms@ =~= old(self).rooms@.update(i as int, room));
            }
        }
    }

    /// Moves on to the next room; after the last one, starts the next cycle
    /// and makes two rooms, drawn at random, one difficulty harder.
    pub fn advance(&mut self)
        requires
            old(self).current_room < old(self).rooms@.len(),
            old(self).rooms@.len() >= 2,
            old(self).cycle < i32::MAX,
        ensures
            old(self).current_room + 1 < old(self).rooms@.len() ==> {
                &&& final(self).rooms@ == old(self).rooms@
                &&& final(self).current_room == old(self).current_room + 1
                &&& final(self).cycle == old(self).cycle
            },
            old(self).current_room + 1 == old(self).rooms@.len() ==> {
                &&& exists|first: int, second: int|
                    0 <= first < old(self).rooms@.len() && 0 <= second < old(self).rooms@.len()
                        && first != second && final(self).rooms@ == old(self).rooms@.update(
                        first,
                        raised(old(self).rooms@[first]),
                    ).update(second, raised(old(self).rooms@[second]))
                &&& final(self).current_room == 0
                &&& final(self).cycle == old(self).cycle + 1
            },
    {
        let n = self.rooms.len();
        if self.current_room + 1 < n {
            self.current_room = self.current_room + 1;
        } else {
            let (first, second) = pick_two(n);
            self.advance_with(first, second);
            assert(self.rooms@ == old(self).rooms@.update(
                first as int,
                raised(old(self).rooms@[first as int]),
            ).update(second as int, raised(old(self).rooms@[second as int])));
        }
    }
}

} // verus!
