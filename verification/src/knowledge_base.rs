//! A knowledge base: several rooms, taken together.
use vstd::prelude::*;
use crate::room::Room;
use crate::text::same_text;

verus! {

/// The rooms of a knowledge base, in the order they were added.
pub struct KnowledgeBase<C> {
    pub rooms: Vec<Room<C>>,
}

/// The names of the rooms, in order.
pub open spec fn room_names<C>(rooms: Seq<Room<C>>) -> Seq<Seq<char>> {
    rooms.map_values(|r: Room<C>| r.name@)
}

/// Room `i` is the first with name `name`.
pub open spec fn is_first_name<C>(rooms: Seq<Room<C>>, name: Seq<char>, i: int) -> bool {
    &&& 0 <= i < rooms.len()
    &&& rooms[i].name@ == name
    &&& forall|j: int| 0 <= j < i ==> rooms[j].name@ != name
}

/// The index of the first room named `name`.
pub open spec fn first_named<C>(rooms: Seq<Room<C>>, name: Seq<char>) -> Option<int> {
    if exists|i: int| is_first_name(rooms, name, i) {
        Some(choose|i: int| is_first_name(rooms, name, i))
    } else {
        None
    }
}

/// The pairs `(names[i], names[j])` with `i < j < end` whose flag
/// `low[i][j]` is set, by increasing `j`.
pub open spec fn row_bridges(
    names: Seq<Seq<char>>,
    low: Seq<Seq<bool>>,
    i: int,
    end: int,
) -> Seq<(Seq<char>, Seq<char>)>
    decreases end - i,
{
    if end <= i + 1 {
        seq![]
    } else {
        let r = row_bridges(names, low, i, end - 1);
        if low[i][end - 1] {
            r.push((names[i], names[end - 1]))
        } else {
            r
        }
    }
}

/// The pairs `(names[i], names[j])` with `i < j` and `i < rows` whose
/// flag `low[i][j]` is set, by increasing `i`, then `j`.
pub open spec fn bridges(names: Seq<Seq<char>>, low: Seq<Seq<bool>>, rows: int) -> Seq<
    (Seq<char>, Seq<char>),
>
    decreases rows,
{
    if rows <= 0 {
        seq![]
    } else {
        bridges(names, low, rows - 1) + row_bridges(names, low, rows - 1, names.len() as int)
    }
}

/// A list of pairs of strings, seen with their characters.
pub open spec fn pair_views(s: Seq<(String, String)>) -> Seq<(Seq<char>, Seq<char>)> {
    s.map_values(|p: (String, String)| (p.0@, p.1@))
}

/// The rows of a matrix.
pub open spec fn rows_of<T>(m: Seq<Vec<T>>) -> Seq<Seq<T>> {
    m.map_values(|row: Vec<T>| row@)
}

/// The rows of each matrix.
pub open spec fn blocks_of<T>(bs: Seq<Vec<Vec<T>>>) -> Seq<Seq<Seq<T>>> {
    bs.map_values(|g: Vec<Vec<T>>| rows_of(g@))
}

/// `n` copies of `zero`.
pub open spec fn zeros<T>(n: int, zero: T) -> Seq<T> {
    Seq::new(n as nat, |k: int| zero)
}

/// The square blocks put together along the diagonal, `zero` everywhere
/// else: each block's rows come after the rows of the blocks before it,
/// its columns after theirs.
pub open spec fn diagonal<T>(blocks: Seq<Seq<Seq<T>>>, zero: T) -> Seq<Seq<T>>
    decreases blocks.len(),
{
    if blocks.len() == 0 {
        seq![]
    } else {
        let d = diagonal(blocks.drop_last(), zero);
        let g = blocks.last();
        d.map_values(|row: Seq<T>| row + zeros(g.len() as int, zero)) + g.map_values(
            |row: Seq<T>| zeros(d.len() as int, zero) + row.take(g.len() as int),
        )
    }
}

/// The number of rows of all blocks together.
pub open spec fn total_rows<T>(blocks: Seq<Seq<Seq<T>>>) -> int
    decreases blocks.len(),
{
    if blocks.len() == 0 {
        0
    } else {
        total_rows(blocks.drop_last()) + blocks.last().len()
    }
}

/// Each block is square or wider: each of its rows holds at least as many
/// entries as it has rows.
pub open spec fn wide_enough<T>(blocks: Seq<Seq<Seq<T>>>) -> bool {
    forall|b: int, i: int|
        0 <= b < blocks.len() && 0 <= i < blocks[b].len() ==> blocks[b][i].len() >= blocks[b].len()
}

proof fn lemma_total_rows_grows<T>(blocks: Seq<Seq<Seq<T>>>, b: int)
    requires
        0 <= b <= blocks.len(),
    ensures
        total_rows(blocks.take(b)) <= total_rows(blocks),
    decreases blocks.len(),
{
    if b < blocks.len() {
        assert(blocks.drop_last().take(b) =~= blocks.take(b));
        lemma_total_rows_grows(blocks.drop_last(), b);
    } else {
        assert(blocks.take(b) =~= blocks);
    }
}

/// The matrix of all blocks put together along the diagonal, `zero`
/// everywhere else.
pub fn block_diagonal<T: Copy>(blocks: &Vec<Vec<Vec<T>>>, zero: T) -> (r: Vec<Vec<T>>)
    requires
        wide_enough(blocks_of(blocks@)),
        total_rows(blocks_of(blocks@)) <= usize::MAX,
    ensures
        rows_of(r@) == diagonal(blocks_of(blocks@), zero),
{
    let ghost bs = blocks_of(blocks@);
    let mut combined: Vec<Vec<T>> = Vec::new();
    let mut size: usize = 0;
    let mut b: usize = 0;
    assert(bs.take(0) =~= Seq::<Seq<Seq<T>>>::empty());
    assert(rows_of(combined@) =~= diagonal(bs.take(0), zero));
    while b < blocks.len()
        invariant
            bs == blocks_of(blocks@),
            wide_enough(bs),
            total_rows(bs) <= usize::MAX,
            b <= blocks.len(),
            size == total_rows(bs.take(b as int)),
            rows_of(combined@) == diagonal(bs.take(b as int), zero),
            combined.len() == size,
        decreases blocks.len() - b,
    {
        let g = &blocks[b];
        let n = g.len();
        let ghost gd = rows_of(g@);
        assert(bs.take(b + 1).drop_last() =~= bs.take(b as int));
        assert(bs.take(b + 1).last() == gd);
        proof {
            lemma_total_rows_grows(bs, b + 1);
        }
        assert(size + n == total_rows(bs.take(b + 1)));
        let new_size = size + n;
        let ghost d = rows_of(combined@);
        assert forall|q: int| 0 <= q < n implies (#[trigger] gd[q]).len() >= n by {
            assert(bs[b as int] == gd);
        }
        let mut r: usize = 0;
        while r < combined.len()
            invariant
                r <= combined.len(),
                combined.len() == d.len(),
                forall|x: int|
                    0 <= x < r ==> (#[trigger] rows_of(combined@)[x]) == d[x] + zeros(
                        n as int,
                        zero,
                    ),
                forall|x: int| r <= x < combined.len() ==> (#[trigger] rows_of(combined@)[x]) == d[x],
            decreases combined.len() - r,
        {
            let mut c: usize = 0;
            let ghost before = combined@;
            assert(rows_of(combined@)[r as int] == combined@[r as int]@);
            assert(d[r as int] + zeros(0, zero) =~= d[r as int]);
            while c < n
                invariant
                    r < combined.len(),
                    combined.len() == d.len(),
                    before.len() == d.len(),
                    c <= n,
                    combined@[r as int]@ == d[r as int] + zeros(c as int, zero),
                    forall|x: int|
                        0 <= x < combined.len() && x != r ==> #[trigger] combined@[x] == before[x],
                decreases n - c,
            {
                combined[r].push(zero);
                c += 1;
                assert(combined@[r as int]@ =~= d[r as int] + zeros(c as int, zero));
            }
            assert forall|x: int| 0 <= x < combined.len() && x != r implies #[trigger] rows_of(
                combined@,
            )[x] == rows_of(before)[x] by {
                assert(combined@[x] == before[x]);
            }
            r += 1;
        }
        let mut i: usize = 0;
        while i < n
            invariant
                i <= n,
                n == g.len(),
                gd == rows_of(g@),
                size == d.len(),
                new_size == size + n,
                forall|q: int| 0 <= q < n ==> (#[trigger] gd[q]).len() >= n,
                combined.len() == d.len() + i,
                forall|x: int|
                    0 <= x < d.len() ==> (#[trigger] rows_of(combined@)[x]) == d[x] + zeros(
                        n as int,
                        zero,
                    ),
                forall|x: int|
                    0 <= x < i ==> (#[trigger] rows_of(combined@)[d.len() + x]) == zeros(
                        d.len() as int,
                        zero,
                    ) + gd[x].take(n as int),
            decreases n - i,
        {
            let mut row: Vec<T> = Vec::new();
            let mut c: usize = 0;
            assert(gd[i as int] == g@[i as int]@);
            assert(gd[i as int].len() >= n);
            while c < new_size
                invariant
                    c <= new_size,
                    new_size == size + n,
                    size == d.len(),
                    i < n,
                    n == g.len(),
                    gd[i as int].len() >= n,
                    gd[i as int] == g@[i as int]@,
                    row@ == (if c <= size {
                        zeros(c as int, zero)
                    } else {
                        zeros(size as int, zero) + gd[i as int].take(c - size)
                    }),
                decreases new_size - c,
            {
                if c < size {
                    row.push(zero);
                } else {
                    row.push(g[i][c - size]);
                }
                c += 1;
                assert(row@ =~= (if c <= size {
                    zeros(c as int, zero)
                } else {
                    zeros(size as int, zero) + gd[i as int].take(c - size)
                }));
            }
            let ghost old_rows = rows_of(combined@);
            combined.push(row);
            assert(rows_of(combined@) =~= old_rows.push(row@));
            i += 1;
        }
        let ghost expected = d.map_values(|row: Seq<T>| row + zeros(n as int, zero))
            + gd.map_values(|row: Seq<T>| zeros(d.len() as int, zero) + row.take(n as int));
        assert(diagonal(bs.take(b + 1), zero) == expected);
        assert forall|x: int| 0 <= x < expected.len() implies #[trigger] rows_of(combined@)[x]
            == expected[x] by {
            if x >= d.len() {
                let y = x - d.len();
                assert(rows_of(combined@)[d.len() + y] == zeros(d.len() as int, zero) + gd[y].take(
                    n as int,
                ));
            }
        }
        assert(rows_of(combined@) =~= diagonal(bs.take(b + 1), zero));
        size = new_size;
        b += 1;
    }
    assert(bs.take(blocks.len() as int) =~= bs);
    combined
}

impl<C> KnowledgeBase<C> {
    /// A knowledge base without rooms.
    pub fn new() -> (r: KnowledgeBase<C>)
        ensures
            r.rooms@.len() == 0,
    {
        KnowledgeBase { rooms: Vec::new() }
    }

    /// Adds a room after the others.
    pub fn add_room(&mut self, room: Room<C>)
        ensures
            final(self).rooms@ == old(self).rooms@.push(room),
    {
        self.rooms.push(room);
    }

    /// The index of the first room named `name`.
    pub fn room_index(&self, name: &str) -> (r: Option<usize>)
        ensures
            match r {
                Some(i) => first_named(self.rooms@, name@) == Some(i as int),
                None => first_named(self.rooms@, name@) is None,
            },
    {
        let mut i: usize = 0;
        while i < self.rooms.len()
            invariant
                i <= self.rooms.len(),
                forall|j: int| 0 <= j < i ==> self.rooms@[j].name@ != name@,
            decreases self.rooms.len() - i,
        {
            if same_text(self.rooms[i].name.as_str(), name) {
                proof {
                    assert(is_first_name(self.rooms@, name@, i as int));
                    let m = choose|m: int| is_first_name(self.rooms@, name@, m);
                    assert(is_first_name(self.rooms@, name@, m));
                    if m < i {
                        assert(self.rooms@[m].name@ != name@);
                    } else if m > i {
                        assert(self.rooms@[i as int].name@ != name@);
                    }
                }
                return Some(i);
            }
            i += 1;
        }
        None
    }

    /// The pairs of rooms, each pair once and in the order of the rooms,
    /// that `low` marks as badly aligned: `low[i][j]`, for `i < j`, says
    /// whether rooms `i` and `j` lack a bridge.
    pub fn missing_bridges(&self, low: &Vec<Vec<bool>>) -> (r: Vec<(String, String)>)
        requires
            low.len() == self.rooms.len(),
            forall|i: int| 0 <= i < low.len() ==> (#[trigger] low@[i]).len() == self.rooms.len(),
        ensures
            pair_views(r@) == bridges(
                room_names(self.rooms@),
                low.deep_view(),
                self.rooms.len() as int,
            ),
    {
        let ghost names = room_names(self.rooms@);
        let ghost lv = low.deep_view();
        let n = self.rooms.len();
        let mut out: Vec<(String, String)> = Vec::new();
        let mut i: usize = 0;
        while i < n
            invariant
                n == self.rooms.len(),
                names == room_names(self.rooms@),
                lv == low.deep_view(),
                low.len() == n,
                forall|q: int| 0 <= q < n ==> (#[trigger] low@[q]).len() == n,
                i <= n,
                pair_views(out@) == bridges(names, lv, i as int),
            decreases n - i,
        {
            let ghost before = pair_views(out@);
            let mut j: usize = i + 1;
            assert(row_bridges(names, lv, i as int, j as int) =~= Seq::<
                (Seq<char>, Seq<char>),
            >::empty());
            while j < n
                invariant
                    n == self.rooms.len(),
                    names == room_names(self.rooms@),
                    lv == low.deep_view(),
                    low.len() == n,
                    forall|q: int| 0 <= q < n ==> (#[trigger] low@[q]).len() == n,
                    i < n,
                    i + 1 <= j <= n,
                    pair_views(out@) == before + row_bridges(names, lv, i as int, j as int),
                decreases n - j,
            {
                assert(lv[i as int][j as int] == low@[i as int]@[j as int]);
                if low[i][j] {
                    let ghost old_out = out@;
                    out.push((self.rooms[i].name.clone(), self.rooms[j].name.clone()));
                    assert(pair_views(out@) =~= pair_views(old_out).push(
                        (self.rooms@[i as int].name@, self.rooms@[j as int].name@),
                    ));
                    assert(names[i as int] == self.rooms@[i as int].name@);
                    assert(names[j as int] == self.rooms@[j as int].name@);
                }
                j += 1;
            }
            assert(n == names.len());
            i += 1;
        }
        out
    }
}

impl<C> Default for KnowledgeBase<C> {
    fn default() -> (r: KnowledgeBase<C>)
        ensures
            r.rooms@.len() == 0,
    {
        KnowledgeBase::new()
    }
}

} // verus!
