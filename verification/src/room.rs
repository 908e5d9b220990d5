//! Rooms: the tiles of one topic, and what can be asked of them.
use vstd::prelude::*;
use crate::text::{same_text, views};
use crate::tile::opt_text;
use crate::tile::{Tile, TileKind, TileStatus};

verus! {

/// One entry of the dependency graph of a room: the graph's weights are
/// made of the tiles' confidences, and a `Link` says which: none, a
/// tile's own confidence, or the mean of two tiles' confidences.
#[derive(Debug, Clone, Copy, PartialEq, Eq, Structural)]
pub enum Link {
    Absent,
    Own(usize),
    Mean(usize, usize),
}

/// A room of tiles. Several tiles may share an id; lookups take the first.
pub struct Room<C> {
    pub name: String,
    pub tiles: Vec<Tile<C>>,
}

/// The tiles behind a list of references.
pub open spec fn derefs<C>(s: Seq<&Tile<C>>) -> Seq<Tile<C>> {
    s.map_values(|t: &Tile<C>| *t)
}

/// The tiles that satisfy `p`, in order.
pub open spec fn select<C>(s: Seq<Tile<C>>, p: spec_fn(Tile<C>) -> bool) -> Seq<Tile<C>>
    decreases s.len(),
{
    if s.len() == 0 {
        seq![]
    } else {
        let r = select(s.drop_last(), p);
        if p(s.last()) {
            r.push(s.last())
        } else {
            r
        }
    }
}

/// Tile `i` is the first with id `id`.
pub open spec fn is_first_id<C>(tiles: Seq<Tile<C>>, id: Seq<char>, i: int) -> bool {
    &&& 0 <= i < tiles.len()
    &&& tiles[i].id@ == id
    &&& forall|j: int| 0 <= j < i ==> tiles[j].id@ != id
}

/// The index of the first tile with id `id`.
pub open spec fn first_with_id<C>(tiles: Seq<Tile<C>>, id: Seq<char>) -> Option<int> {
    if exists|i: int| is_first_id(tiles, id, i) {
        Some(choose|i: int| is_first_id(tiles, id, i))
    } else {
        None
    }
}

/// The tile that `get` finds for `id`.
pub open spec fn lookup<C>(tiles: Seq<Tile<C>>, id: Seq<char>) -> Option<Tile<C>> {
    match first_with_id(tiles, id) {
        Some(i) => Some(tiles[i]),
        None => None,
    }
}

/// Some tile has id `id`.
pub open spec fn has_id<C>(tiles: Seq<Tile<C>>, id: Seq<char>) -> bool {
    exists|i: int| 0 <= i < tiles.len() && tiles[i].id@ == id
}

/// The tiles after inserting `tile`: it replaces the first tile with its
/// id, or comes last where there is none.
pub open spec fn inserted<C>(tiles: Seq<Tile<C>>, tile: Tile<C>) -> Seq<Tile<C>> {
    match first_with_id(tiles, tile.id@) {
        Some(i) => tiles.update(i, tile),
        None => tiles.push(tile),
    }
}

/// A tile depends on a conjecture: one of its dependencies finds a tile
/// whose status is `Conjecture`.
pub open spec fn on_frontier<C>(tiles: Seq<Tile<C>>, t: Tile<C>) -> bool {
    exists|k: int|
        0 <= k < t.dependencies.len() && match lookup(tiles, #[trigger] t.dependencies@[k]@) {
            Some(d) => d.status == TileStatus::Conjecture,
            None => false,
        }
}

proof fn lemma_first_with_id<C>(tiles: Seq<Tile<C>>, id: Seq<char>, i: int)
    requires
        0 <= i < tiles.len(),
        tiles[i].id@ == id,
        forall|j: int| 0 <= j < i ==> tiles[j].id@ != id,
    ensures
        first_with_id(tiles, id) == Some(i),
{
    assert(is_first_id(tiles, id, i));
    let m = choose|m: int| is_first_id(tiles, id, m);
    assert(is_first_id(tiles, id, m));
    if m < i {
        assert(tiles[m].id@ != id);
    } else if m > i {
        assert(tiles[i].id@ != id);
    }
}

/// Every dependency of every tile, tile by tile, in order.
pub open spec fn all_dependencies<C>(tiles: Seq<Tile<C>>) -> Seq<Seq<char>>
    decreases tiles.len(),
{
    if tiles.len() == 0 {
        seq![]
    } else {
        all_dependencies(tiles.drop_last()) + views(tiles.last().dependencies@)
    }
}

/// The dependencies among `ds` that no tile has as id, each once, in the
/// order in which they first occur.
pub open spec fn missing<C>(ds: Seq<Seq<char>>, tiles: Seq<Tile<C>>) -> Seq<Seq<char>>
    decreases ds.len(),
{
    if ds.len() == 0 {
        seq![]
    } else {
        let r = missing(ds.drop_last(), tiles);
        let d = ds.last();
        if !has_id(tiles, d) && !r.contains(d) {
            r.push(d)
        } else {
            r
        }
    }
}

/// Tile `j` is the last with id `id`.
pub open spec fn is_last_id<C>(tiles: Seq<Tile<C>>, id: Seq<char>, j: int) -> bool {
    &&& 0 <= j < tiles.len()
    &&& tiles[j].id@ == id
    &&& forall|m: int| j < m < tiles.len() ==> tiles[m].id@ != id
}

/// The tile that a dependency `id` stands for in the dependency graph: the
/// last tile with that id.
pub open spec fn last_with_id<C>(tiles: Seq<Tile<C>>, id: Seq<char>) -> Option<int> {
    if exists|j: int| is_last_id(tiles, id, j) {
        Some(choose|j: int| is_last_id(tiles, id, j))
    } else {
        None
    }
}

/// One of the first `count` dependencies of tile `a` stands for tile `b`.
pub open spec fn links_within<C>(tiles: Seq<Tile<C>>, a: int, b: int, count: int) -> bool {
    exists|q: int|
        0 <= q < count && q < tiles[a].dependencies.len() && last_with_id(
            tiles,
            #[trigger] tiles[a].dependencies@[q]@,
        ) == Some(b)
}

/// Some dependency of tile `a` stands for tile `b`.
pub open spec fn links_to<C>(tiles: Seq<Tile<C>>, a: int, b: int) -> bool {
    links_within(tiles, a, b, tiles[a].dependencies.len() as int)
}

/// The entry of the dependency graph between tiles `a` and `b`: a tile's
/// own confidence on the diagonal; the mean of the two confidences where
/// either depends on the other; nothing elsewhere.
pub open spec fn link_between<C>(tiles: Seq<Tile<C>>, a: int, b: int) -> Link {
    if a == b {
        Link::Own(a as usize)
    } else if links_to(tiles, a, b) || links_to(tiles, b, a) {
        if a < b {
            Link::Mean(a as usize, b as usize)
        } else {
            Link::Mean(b as usize, a as usize)
        }
    } else {
        Link::Absent
    }
}

/// The graph entry while it is being built: tiles before `i` done, and the
/// first `k` dependencies of tile `i`.
pub open spec fn link_so_far<C>(tiles: Seq<Tile<C>>, a: int, b: int, i: int, k: int) -> Link {
    let done_ab = (a < i && links_to(tiles, a, b)) || (a == i && links_within(tiles, a, b, k));
    let done_ba = (b < i && links_to(tiles, b, a)) || (b == i && links_within(tiles, b, a, k));
    if a == b {
        if a < i {
            Link::Own(a as usize)
        } else {
            Link::Absent
        }
    } else if done_ab || done_ba {
        if a < b {
            Link::Mean(a as usize, b as usize)
        } else {
            Link::Mean(b as usize, a as usize)
        }
    } else {
        Link::Absent
    }
}

/// The room's name as read from its tiles: the first tile room that is
/// not empty, or empty where there is none.
pub open spec fn room_name_of<C>(tiles: Seq<Tile<C>>) -> Seq<char>
    decreases tiles.len(),
{
    if tiles.len() == 0 {
        Seq::<char>::empty()
    } else {
        let r = room_name_of(tiles.drop_last());
        if r.len() == 0 {
            tiles.last().room@
        } else {
            r
        }
    }
}

/// What to work on next: the first failure; else the first tile on the
/// frontier; else the first gap; else nothing.
pub open spec fn suggestion<C>(tiles: Seq<Tile<C>>) -> Option<Seq<char>> {
    let f = select(tiles, |t: Tile<C>| t.spec_is_failure());
    let fr = select(tiles, |t: Tile<C>| on_frontier(tiles, t));
    let g = missing(all_dependencies(tiles), tiles);
    if f.len() > 0 {
        Some(f[0].id@)
    } else if fr.len() > 0 {
        Some(fr[0].id@)
    } else if g.len() > 0 {
        Some(g[0])
    } else {
        None
    }
}

proof fn lemma_last_with_id<C>(tiles: Seq<Tile<C>>, id: Seq<char>, j: int)
    requires
        is_last_id(tiles, id, j),
    ensures
        last_with_id(tiles, id) == Some(j),
{
    let m = choose|m: int| is_last_id(tiles, id, m);
    assert(is_last_id(tiles, id, m));
    if m < j {
        assert(tiles[j].id@ != id);
    } else if m > j {
        assert(tiles[m].id@ != id);
    }
}

/// The references to the tiles whose flag is set, in order.
fn pick<'a, C>(
    tiles: &'a Vec<Tile<C>>,
    flags: &Vec<bool>,
    Ghost(p): Ghost<spec_fn(Tile<C>) -> bool>,
) -> (r: Vec<&'a Tile<C>>)
    requires
        flags.len() == tiles.len(),
        forall|i: int| 0 <= i < tiles.len() ==> flags@[i] == p(#[trigger] tiles@[i]),
    ensures
        derefs(r@) == select(tiles@, p),
{
    let mut out: Vec<&'a Tile<C>> = Vec::new();
    let mut i: usize = 0;
    assert(tiles@.take(0) =~= Seq::<Tile<C>>::empty());
    while i < tiles.len()
        invariant
            i <= tiles.len(),
            flags.len() == tiles.len(),
            forall|j: int| 0 <= j < tiles.len() ==> flags@[j] == p(#[trigger] tiles@[j]),
            derefs(out@) == select(tiles@.take(i as int), p),
        decreases tiles.len() - i,
    {
        assert(tiles@.take(i + 1).drop_last() =~= tiles@.take(i as int));
        assert(tiles@.take(i + 1).last() == tiles@[i as int]);
        let ghost before = out@;
        if flags[i] {
            out.push(&tiles[i]);
            assert(derefs(out@) =~= derefs(before).push(tiles@[i as int]));
        }
        i += 1;
    }
    assert(tiles@.take(tiles.len() as int) =~= tiles@);
    out
}

impl<C> Room<C> {
    /// The first tile with id `id`.
    pub fn get(&self, id: &str) -> (r: Option<&Tile<C>>)
        ensures
            match r {
                Some(t) => lookup(self.tiles@, id@) == Some(*t),
                None => lookup(self.tiles@, id@) is None,
            },
    {
        match self.position(id) {
            Some(i) => Some(&self.tiles[i]),
            None => None,
        }
    }

    /// The index of the first tile with id `id`.
    fn position(&self, id: &str) -> (r: Option<usize>)
        ensures
            match r {
                Some(i) => first_with_id(self.tiles@, id@) == Some(i as int),
                None => first_with_id(self.tiles@, id@) is None && !has_id(self.tiles@, id@),
            },
    {
        let mut i: usize = 0;
        while i < self.tiles.len()
            invariant
                i <= self.tiles.len(),
                forall|j: int| 0 <= j < i ==> self.tiles@[j].id@ != id@,
            decreases self.tiles.len() - i,
        {
            if same_text(self.tiles[i].id.as_str(), id) {
                proof {
                    lemma_first_with_id(self.tiles@, id@, i as int);
                }
                return Some(i);
            }
            i += 1;
        }
        None
    }

    /// Puts `tile` in the room: in place of the first tile with its id, or
    /// last where there is none.
    pub fn insert(&mut self, tile: Tile<C>)
        ensures
            final(self).name == old(self).name,
            final(self).tiles@ == inserted(old(self).tiles@, tile),
    {
        match self.position(tile.id.as_str()) {
            Some(i) => {
                self.tiles.set(i, tile);
            },
            None => {
                self.tiles.push(tile);
            },
        }
    }

    /// The tiles whose id is not among `known_ids`, in order.
    pub fn what_changed(&self, known_ids: &[String]) -> (r: Vec<&Tile<C>>)
        ensures
            derefs(r@) == select(self.tiles@, |t: Tile<C>| !views(known_ids@).contains(t.id@)),
    {
        let ghost p = |t: Tile<C>| !views(known_ids@).contains(t.id@);
        let mut flags: Vec<bool> = Vec::new();
        let mut i: usize = 0;
        while i < self.tiles.len()
            invariant
                i <= self.tiles.len(),
                flags.len() == i,
                p == (|t: Tile<C>| !views(known_ids@).contains(t.id@)),
                forall|j: int| 0 <= j < i ==> flags@[j] == p(#[trigger] self.tiles@[j]),
            decreases self.tiles.len() - i,
        {
            let mut known = false;
            let mut k: usize = 0;
            while k < known_ids.len()
                invariant
                    i < self.tiles.len(),
                    k <= known_ids.len(),
                    known == exists|q: int| 0 <= q < k && known_ids@[q]@ == self.tiles@[i as int].id@,
                decreases known_ids.len() - k,
            {
                if same_text(known_ids[k].as_str(), self.tiles[i].id.as_str()) {
                    known = true;
                }
                k += 1;
            }
            assert(known == views(known_ids@).contains(self.tiles@[i as int].id@)) by {
                if known {
                    let q = choose|q: int|
                        0 <= q < known_ids.len() && known_ids@[q]@ == self.tiles@[i as int].id@;
                    assert(views(known_ids@)[q] == self.tiles@[i as int].id@);
                }
            }
            assert(p(self.tiles@[i as int]) == !known);
            flags.push(!known);
            i += 1;
        }
        pick(&self.tiles, &flags, Ghost(p))
    }

    /// The failures, in order: read these first.
    pub fn failures(&self) -> (r: Vec<&Tile<C>>)
        ensures
            derefs(r@) == select(self.tiles@, |t: Tile<C>| t.spec_is_failure()),
    {
        let ghost p = |t: Tile<C>| t.spec_is_failure();
        let mut flags: Vec<bool> = Vec::new();
        let mut i: usize = 0;
        while i < self.tiles.len()
            invariant
                i <= self.tiles.len(),
                flags.len() == i,
                p == (|t: Tile<C>| t.spec_is_failure()),
                forall|j: int| 0 <= j < i ==> flags@[j] == p(#[trigger] self.tiles@[j]),
            decreases self.tiles.len() - i,
        {
            let f = self.tiles[i].is_failure();
            assert(p(self.tiles@[i as int]) == f);
            flags.push(f);
            i += 1;
        }
        pick(&self.tiles, &flags, Ghost(p))
    }

    /// The verified tiles, in order.
    pub fn verified(&self) -> (r: Vec<&Tile<C>>)
        ensures
            derefs(r@) == select(self.tiles@, |t: Tile<C>| t.status == TileStatus::Verified),
    {
        let ghost p = |t: Tile<C>| t.status == TileStatus::Verified;
        let mut flags: Vec<bool> = Vec::new();
        let mut i: usize = 0;
        while i < self.tiles.len()
            invariant
                i <= self.tiles.len(),
                flags.len() == i,
                p == (|t: Tile<C>| t.status == TileStatus::Verified),
                forall|j: int| 0 <= j < i ==> flags@[j] == p(#[trigger] self.tiles@[j]),
            decreases self.tiles.len() - i,
        {
            let v = self.tiles[i].is_verified();
            assert(p(self.tiles@[i as int]) == v);
            flags.push(v);
            i += 1;
        }
        pick(&self.tiles, &flags, Ghost(p))
    }

    /// The index of the last tile with id `id`.
    fn last_position(&self, id: &str) -> (r: Option<usize>)
        ensures
            match r {
                Some(j) => last_with_id(self.tiles@, id@) == Some(j as int),
                None => last_with_id(self.tiles@, id@) is None,
            },
    {
        let mut j = self.tiles.len();
        while j > 0
            invariant
                j <= self.tiles.len(),
                forall|m: int| j <= m < self.tiles.len() ==> self.tiles@[m].id@ != id@,
            decreases j,
        {
            j -= 1;
            if same_text(self.tiles[j].id.as_str(), id) {
                proof {
                    lemma_last_with_id(self.tiles@, id@, j as int);
                }
                return Some(j);
            }
        }
        None
    }

    /// Tiles whose dependencies include at least one conjecture.
    pub fn frontier(&self) -> (r: Vec<&Tile<C>>)
        ensures
            derefs(r@) == select(self.tiles@, |t: Tile<C>| on_frontier(self.tiles@, t)),
    {
        let ghost p = |t: Tile<C>| on_frontier(self.tiles@, t);
        let mut flags: Vec<bool> = Vec::new();
        let mut i: usize = 0;
        while i < self.tiles.len()
            invariant
                i <= self.tiles.len(),
                flags.len() == i,
                p == (|t: Tile<C>| on_frontier(self.tiles@, t)),
                forall|j: int| 0 <= j < i ==> flags@[j] == p(#[trigger] self.tiles@[j]),
            decreases self.tiles.len() - i,
        {
            let t = &self.tiles[i];
            let mut found = false;
            let mut k: usize = 0;
            while k < t.dependencies.len()
                invariant
                    *t == self.tiles@[i as int],
                    k <= t.dependencies.len(),
                    found == exists|q: int|
                        0 <= q < k && match lookup(self.tiles@, #[trigger] t.dependencies@[q]@) {
                            Some(d) => d.status == TileStatus::Conjecture,
                            None => false,
                        },
                decreases t.dependencies.len() - k,
            {
                match self.get(t.dependencies[k].as_str()) {
                    Some(d) => {
                        if d.status == TileStatus::Conjecture {
                            found = true;
                        }
                    },
                    None => {},
                }
                k += 1;
            }
            assert(p(self.tiles@[i as int]) == found);
            flags.push(found);
            i += 1;
        }
        pick(&self.tiles, &flags, Ghost(p))
    }

    /// Dependencies that no tile has as id, each once, in the order in
    /// which they first occur.
    pub fn gaps(&self) -> (r: Vec<String>)
        ensures
            views(r@) == missing(all_dependencies(self.tiles@), self.tiles@),
    {
        let mut out: Vec<String> = Vec::new();
        let mut i: usize = 0;
        assert(self.tiles@.take(0) =~= Seq::<Tile<C>>::empty());
        while i < self.tiles.len()
            invariant
                i <= self.tiles.len(),
                views(out@) == missing(all_dependencies(self.tiles@.take(i as int)), self.tiles@),
            decreases self.tiles.len() - i,
        {
            let t = &self.tiles[i];
            let ghost before = all_dependencies(self.tiles@.take(i as int));
            let ghost deps = views(t.dependencies@);
            assert(self.tiles@.take(i + 1).drop_last() =~= self.tiles@.take(i as int));
            assert(all_dependencies(self.tiles@.take(i + 1)) == before + deps);
            let mut k: usize = 0;
            assert(before + deps.take(0) =~= before);
            while k < t.dependencies.len()
                invariant
                    *t == self.tiles@[i as int],
                    deps == views(t.dependencies@),
                    k <= t.dependencies.len(),
                    views(out@) == missing(before + deps.take(k as int), self.tiles@),
                decreases t.dependencies.len() - k,
            {
                let dep = &t.dependencies[k];
                let ghost so_far = before + deps.take(k as int);
                assert((before + deps.take(k + 1)).drop_last() =~= so_far);
                assert((before + deps.take(k + 1)).last() == dep@);
                let known = match self.position(dep.as_str()) {
                    Some(_) => true,
                    None => false,
                };
                assert(known == has_id(self.tiles@, dep@)) by {
                    if known {
                        let q = first_with_id(self.tiles@, dep@)->0;
                        assert(is_first_id(self.tiles@, dep@, q));
                    }
                }
                let mut seen = false;
                let mut m: usize = 0;
                while m < out.len()
                    invariant
                        m <= out.len(),
                        seen == exists|q: int| 0 <= q < m && out@[q]@ == dep@,
                    decreases out.len() - m,
                {
                    if same_text(out[m].as_str(), dep.as_str()) {
                        seen = true;
                    }
                    m += 1;
                }
                assert(seen == views(out@).contains(dep@)) by {
                    if seen {
                        let q = choose|q: int| 0 <= q < out.len() && out@[q]@ == dep@;
                        assert(views(out@)[q] == dep@);
                    }
                }
                if !known && !seen {
                    let ghost old_out = out@;
                    out.push(dep.clone());
                    assert(views(out@) =~= views(old_out).push(dep@));
                }
                k += 1;
            }
            assert(deps.take(deps.len() as int) =~= deps);
            i += 1;
        }
        assert(self.tiles@.take(self.tiles.len() as int) =~= self.tiles@);
        out
    }

    /// What to work on next: the first failure, else the first tile on
    /// the frontier, else the first gap.
    pub fn suggest_next(&self) -> (r: Option<String>)
        ensures
            opt_text(r) == suggestion(self.tiles@),
    {
        let failures = self.failures();
        if failures.len() > 0 {
            assert(derefs(failures@)[0] == failures@[0]);
            return Some(failures[0].id.clone());
        }
        let frontier = self.frontier();
        if frontier.len() > 0 {
            assert(derefs(frontier@)[0] == frontier@[0]);
            return Some(frontier[0].id.clone());
        }
        let gaps = self.gaps();
        if gaps.len() > 0 {
            assert(views(gaps@)[0] == gaps@[0]@);
            return Some(gaps[0].clone());
        }
        None
    }

    /// The room made of loaded tiles: named after the first tile room that
    /// is not empty.
    pub fn from_tiles(tiles: Vec<Tile<C>>) -> (r: Room<C>)
        ensures
            r.name@ == room_name_of(tiles@),
            r.tiles@ == tiles@,
    {
        let mut name = String::new();
        let mut i: usize = 0;
        assert(tiles@.take(0) =~= Seq::<Tile<C>>::empty());
        while i < tiles.len()
            invariant
                i <= tiles.len(),
                name@ == room_name_of(tiles@.take(i as int)),
            decreases tiles.len() - i,
        {
            assert(tiles@.take(i + 1).drop_last() =~= tiles@.take(i as int));
            if name.as_str().is_empty() {
                name = tiles[i].room.clone();
            }
            i += 1;
        }
        assert(tiles@.take(tiles.len() as int) =~= tiles@);
        Room { name, tiles }
    }

    /// The dependency graph of the room, entry by entry: tile `i`'s own
    /// confidence at `(i, i)`, the mean of two tiles' confidences where
    /// one depends on the other, nothing elsewhere. A dependency stands
    /// for the last tile with its id.
    pub fn dependency_links(&self) -> (r: Vec<Vec<Link>>)
        ensures
            r.len() == self.tiles.len(),
            forall|a: int| 0 <= a < r.len() ==> (#[trigger] r@[a]).len() == self.tiles.len(),
            forall|a: int, b: int|
                0 <= a < r.len() && 0 <= b < r.len() ==> #[trigger] r@[a]@[b] == link_between(
                    self.tiles@,
                    a,
                    b,
                ),
    {
        let n = self.tiles.len();
        let ghost tiles = self.tiles@;
        let mut m: Vec<Vec<Link>> = Vec::new();
        let mut a: usize = 0;
        while a < n
            invariant
                n == self.tiles.len(),
                a <= n,
                m.len() == a,
                forall|x: int| 0 <= x < a ==> (#[trigger] m@[x]).len() == n,
                forall|x: int, y: int|
                    0 <= x < a && 0 <= y < n ==> #[trigger] m@[x]@[y] == Link::Absent,
            decreases n - a,
        {
            let mut row: Vec<Link> = Vec::new();
            let mut b: usize = 0;
            while b < n
                invariant
                    b <= n,
                    row.len() == b,
                    forall|y: int| 0 <= y < b ==> #[trigger] row@[y] == Link::Absent,
                decreases n - b,
            {
                row.push(Link::Absent);
                b += 1;
            }
            m.push(row);
            a += 1;
        }
        let mut i: usize = 0;
        while i < n
            invariant
                n == self.tiles.len(),
                tiles == self.tiles@,
                i <= n,
                m.len() == n,
                forall|x: int| 0 <= x < n ==> (#[trigger] m@[x]).len() == n,
                forall|x: int, y: int|
                    0 <= x < n && 0 <= y < n ==> #[trigger] m@[x]@[y] == link_so_far(
                        tiles,
                        x,
                        y,
                        i as int,
                        0,
                    ),
            decreases n - i,
        {
            let t = &self.tiles[i];
            let mut k: usize = 0;
            while k < t.dependencies.len()
                invariant
                    n == self.tiles.len(),
                    tiles == self.tiles@,
                    i < n,
                    *t == tiles[i as int],
                    k <= t.dependencies.len(),
                    m.len() == n,
                    forall|x: int| 0 <= x < n ==> (#[trigger] m@[x]).len() == n,
                    forall|x: int, y: int|
                        0 <= x < n && 0 <= y < n ==> #[trigger] m@[x]@[y] == link_so_far(
                            tiles,
                            x,
                            y,
                            i as int,
                            k as int,
                        ),
                decreases t.dependencies.len() - k,
            {
                match self.last_position(t.dependencies[k].as_str()) {
                    Some(j) => {
                        if j != i {
                            let link = if i < j {
                                Link::Mean(i, j)
                            } else {
                                Link::Mean(j, i)
                            };
                            m[i][j] = link;
                            m[j][i] = link;
                        }
                    },
                    None => {},
                }
                proof {
                    assert forall|x: int, y: int|
                        0 <= x < n && 0 <= y < n implies #[trigger] m@[x]@[y] == link_so_far(
                            tiles,
                            x,
                            y,
                            i as int,
                            k + 1,
                        ) by {
                        assert(links_within(tiles, i as int, y, k + 1) == (links_within(
                            tiles,
                            i as int,
                            y,
                            k as int,
                        ) || last_with_id(tiles, tiles[i as int].dependencies@[k as int]@) == Some(
                            y,
                        ))) by {
                            if links_within(tiles, i as int, y, k + 1) {
                                let q = choose|q: int|
                                    0 <= q < k + 1 && q < tiles[i as int].dependencies.len()
                                        && last_with_id(
                                        tiles,
                                        #[trigger] tiles[i as int].dependencies@[q]@,
                                    ) == Some(y);
                                if q < k {
                                    assert(links_within(tiles, i as int, y, k as int));
                                }
                            }
                        }
                        assert(links_within(tiles, i as int, x, k + 1) == (links_within(
                            tiles,
                            i as int,
                            x,
                            k as int,
                        ) || last_with_id(tiles, tiles[i as int].dependencies@[k as int]@) == Some(
                            x,
                        ))) by {
                            if links_within(tiles, i as int, x, k + 1) {
                                let q = choose|q: int|
                                    0 <= q < k + 1 && q < tiles[i as int].dependencies.len()
                                        && last_with_id(
                                        tiles,
                                        #[trigger] tiles[i as int].dependencies@[q]@,
                                    ) == Some(x);
                                if q < k {
                                    assert(links_within(tiles, i as int, x, k as int));
                                }
                            }
                        }
                    }
                }
                k += 1;
            }
            m[i][i] = Link::Own(i);
            proof {
                assert forall|x: int, y: int|
                    0 <= x < n && 0 <= y < n implies #[trigger] m@[x]@[y] == link_so_far(
                        tiles,
                        x,
                        y,
                        i + 1,
                        0,
                    ) by {
                    assert(!links_within(tiles, x, y, 0));
                    assert(!links_within(tiles, y, x, 0));
                }
            }
            i += 1;
        }
        m
    }
}


/// Where some tile has an id, there is a first one.
proof fn lemma_has_id_first<C>(tiles: Seq<Tile<C>>, id: Seq<char>)
    requires
        has_id(tiles, id),
    ensures
        first_with_id(tiles, id) is Some,
    decreases tiles.len(),
{
    let rest = tiles.drop_last();
    if has_id(rest, id) {
        lemma_has_id_first(rest, id);
        let i = choose|i: int| is_first_id(rest, id, i);
        assert(is_first_id(rest, id, i));
        assert(rest[i] == tiles[i]);
        assert forall|j: int| 0 <= j < i implies tiles[j].id@ != id by {
            assert(rest[j] == tiles[j]);
        }
        assert(is_first_id(tiles, id, i));
    } else {
        assert forall|j: int| 0 <= j < tiles.len() - 1 implies tiles[j].id@ != id by {
            assert(rest[j] == tiles[j]);
            if tiles[j].id@ == id {
                assert(has_id(rest, id));
            }
        }
        let w = choose|w: int| 0 <= w < tiles.len() && tiles[w].id@ == id;
        if w < tiles.len() - 1 {
            assert(rest[w] == tiles[w]);
        }
        assert(is_first_id(tiles, id, tiles.len() - 1));
    }
}

proof fn lemma_first_is_first<C>(tiles: Seq<Tile<C>>, id: Seq<char>)
    requires
        first_with_id(tiles, id) is Some,
    ensures
        is_first_id(tiles, id, first_with_id(tiles, id)->0),
{
}

/// After `insert`, `get` finds the inserted tile under its id.
pub proof fn lemma_get_after_insert<C>(tiles: Seq<Tile<C>>, t: Tile<C>)
    ensures
        lookup(inserted(tiles, t), t.id@) == Some(t),
{
    let id = t.id@;
    match first_with_id(tiles, id) {
        Some(i) => {
            lemma_first_is_first(tiles, id);
            let u = tiles.update(i, t);
            assert forall|j: int| 0 <= j < i implies u[j].id@ != id by {
                assert(u[j] == tiles[j]);
            }
            lemma_first_with_id(u, id, i);
        },
        None => {
            if has_id(tiles, id) {
                lemma_has_id_first(tiles, id);
            }
            let u = tiles.push(t);
            assert forall|j: int| 0 <= j < tiles.len() implies u[j].id@ != id by {
                assert(u[j] == tiles[j]);
            }
            lemma_first_with_id(u, id, tiles.len() as int);
        },
    }
}

/// `insert` leaves what `get` finds under any other id as it was.
pub proof fn lemma_get_other_after_insert<C>(tiles: Seq<Tile<C>>, t: Tile<C>, id: Seq<char>)
    requires
        id != t.id@,
    ensures
        lookup(inserted(tiles, t), id) == lookup(tiles, id),
{
    let u = inserted(tiles, t);
    assert(forall|j: int| 0 <= j < u.len() && u[j].id@ == id ==> j < tiles.len() && u[j] == tiles[j]);
    match first_with_id(tiles, id) {
        Some(i) => {
            lemma_first_is_first(tiles, id);
            assert forall|j: int| 0 <= j < i implies u[j].id@ != id by {
                if u[j].id@ == id {
                    assert(tiles[j].id@ == id);
                }
            }
            assert(u[i] == tiles[i]);
            lemma_first_with_id(u, id, i);
        },
        None => {
            if has_id(u, id) {
                lemma_has_id_first(u, id);
                lemma_first_is_first(u, id);
                let i = first_with_id(u, id)->0;
                assert(u[i] == tiles[i]);
                assert(has_id(tiles, id));
                lemma_has_id_first(tiles, id);
            }
        },
    }
}

/// No two tiles share an id.
pub open spec fn unique_ids<C>(tiles: Seq<Tile<C>>) -> bool {
    forall|i: int, j: int|
        0 <= i < tiles.len() && 0 <= j < tiles.len() && i != j ==> tiles[i].id@ != tiles[j].id@
}

/// `insert` never gives two tiles the same id: a room whose tiles all go
/// in through `insert` has each id once.
pub proof fn lemma_insert_keeps_ids_unique<C>(tiles: Seq<Tile<C>>, t: Tile<C>)
    requires
        unique_ids(tiles),
    ensures
        unique_ids(inserted(tiles, t)),
{
    let id = t.id@;
    let u = inserted(tiles, t);
    match first_with_id(tiles, id) {
        Some(i) => {
            lemma_first_is_first(tiles, id);
            assert forall|a: int, b: int|
                0 <= a < u.len() && 0 <= b < u.len() && a != b implies u[a].id@ != u[b].id@ by {
                if a == i {
                    assert(tiles[b].id@ != tiles[i].id@);
                } else if b == i {
                    assert(tiles[a].id@ != tiles[i].id@);
                }
            }
        },
        None => {
            if has_id(tiles, id) {
                lemma_has_id_first(tiles, id);
            }
            assert forall|a: int, b: int|
                0 <= a < u.len() && 0 <= b < u.len() && a != b implies u[a].id@ != u[b].id@ by {
                if a == tiles.len() {
                    assert(u[b] == tiles[b]);
                } else if b == tiles.len() {
                    assert(u[a] == tiles[a]);
                }
            }
        },
    }
}

/// The dependency graph is symmetric.
pub proof fn lemma_links_symmetric<C>(tiles: Seq<Tile<C>>, a: int, b: int)
    ensures
        link_between(tiles, a, b) == link_between(tiles, b, a),
{
}


/// The gaps are exactly the dependencies that no tile has as id, each
/// named once.
pub proof fn lemma_gaps_exact<C>(ds: Seq<Seq<char>>, tiles: Seq<Tile<C>>)
    ensures
        missing(ds, tiles).no_duplicates(),
        forall|g: Seq<char>|
            #[trigger] missing(ds, tiles).contains(g) <==> (ds.contains(g) && !has_id(tiles, g)),
    decreases ds.len(),
{
    if ds.len() > 0 {
        let rest = ds.drop_last();
        let d = ds.last();
        lemma_gaps_exact(rest, tiles);
        let r = missing(rest, tiles);
        assert forall|g: Seq<char>| #[trigger] missing(ds, tiles).contains(g) <==> (ds.contains(g)
            && !has_id(tiles, g)) by {
            if ds.contains(g) {
                let k = choose|k: int| 0 <= k < ds.len() && ds[k] == g;
                if k < ds.len() - 1 {
                    assert(rest[k] == g);
                    assert(rest.contains(g));
                }
            }
            if rest.contains(g) {
                let k = choose|k: int| 0 <= k < rest.len() && rest[k] == g;
                assert(ds[k] == g);
            }
            if !has_id(tiles, d) && !r.contains(d) {
                assert(r.push(d)[r.len() as int] == d);
                if r.push(d).contains(g) {
                    let k = choose|k: int| 0 <= k < r.len() + 1 && r.push(d)[k] == g;
                    if k < r.len() {
                        assert(r[k] == g);
                    }
                }
                if r.contains(g) {
                    let k = choose|k: int| 0 <= k < r.len() && r[k] == g;
                    assert(r.push(d)[k] == g);
                }
            }
        }
    }
}


proof fn lemma_select_all<C>(s: Seq<Tile<C>>, p: spec_fn(Tile<C>) -> bool)
    requires
        forall|i: int| 0 <= i < s.len() ==> p(#[trigger] s[i]),
    ensures
        select(s, p) == s,
    decreases s.len(),
{
    if s.len() > 0 {
        lemma_select_all(s.drop_last(), p);
        assert(p(s[s.len() - 1]));
        assert(s.drop_last().push(s.last()) =~= s);
    }
}

proof fn lemma_select_none<C>(s: Seq<Tile<C>>, p: spec_fn(Tile<C>) -> bool)
    requires
        forall|i: int| 0 <= i < s.len() ==> !p(#[trigger] s[i]),
    ensures
        select(s, p) == Seq::<Tile<C>>::empty(),
    decreases s.len(),
{
    if s.len() > 0 {
        lemma_select_none(s.drop_last(), p);
        assert(!p(s[s.len() - 1]));
    }
}

/// Against no known ids, every tile has changed; against the ids of all
/// tiles, none has.
pub proof fn lemma_what_changed_bounds<C>(tiles: Seq<Tile<C>>, known: Seq<String>)
    ensures
        select(tiles, |t: Tile<C>| !views(Seq::<String>::empty()).contains(t.id@)) == tiles,
        (forall|i: int| 0 <= i < tiles.len() ==> views(known).contains(#[trigger] tiles[i].id@))
            ==> select(tiles, |t: Tile<C>| !views(known).contains(t.id@)) == Seq::<
            Tile<C>,
        >::empty(),
{
    let none = |t: Tile<C>| !views(Seq::<String>::empty()).contains(t.id@);
    assert forall|i: int| 0 <= i < tiles.len() implies none(#[trigger] tiles[i]) by {
        assert(views(Seq::<String>::empty()) =~= Seq::<Seq<char>>::empty());
    }
    lemma_select_all(tiles, none);
    if forall|i: int| 0 <= i < tiles.len() ==> views(known).contains(#[trigger] tiles[i].id@) {
        let p = |t: Tile<C>| !views(known).contains(t.id@);
        assert forall|i: int| 0 <= i < tiles.len() implies !p(#[trigger] tiles[i]) by {
            assert(views(known).contains(tiles[i].id@));
        }
        lemma_select_none(tiles, p);
    }
}


/// Inserting the same tile a second time changes nothing.
pub proof fn lemma_insert_twice<C>(tiles: Seq<Tile<C>>, t: Tile<C>)
    ensures
        inserted(inserted(tiles, t), t) == inserted(tiles, t),
{
    let u = inserted(tiles, t);
    lemma_get_after_insert(tiles, t);
    let i = first_with_id(u, t.id@)->0;
    assert(u[i] == t);
    assert(u.update(i, t) =~= u);
}

/// After `insert` into tiles with distinct ids, the inserted tile is the
/// only one with its id.
pub proof fn lemma_insert_sole_holder<C>(tiles: Seq<Tile<C>>, t: Tile<C>)
    requires
        unique_ids(tiles),
    ensures
        has_id(inserted(tiles, t), t.id@),
        forall|i: int|
            0 <= i < inserted(tiles, t).len() && (#[trigger] inserted(tiles, t)[i]).id@ == t.id@
                ==> inserted(tiles, t)[i] == t,
{
    let u = inserted(tiles, t);
    lemma_get_after_insert(tiles, t);
    lemma_insert_keeps_ids_unique(tiles, t);
    let k = first_with_id(u, t.id@)->0;
    lemma_first_is_first(u, t.id@);
    assert(u[k] == t);
    assert forall|i: int| 0 <= i < u.len() && (#[trigger] u[i]).id@ == t.id@ implies u[i] == t by {
        if i != k {
            assert(u[i].id@ != u[k].id@);
        }
    }
}


/// `select` keeps exactly the tiles that satisfy the predicate.
pub proof fn lemma_select_contains<C>(s: Seq<Tile<C>>, p: spec_fn(Tile<C>) -> bool, x: Tile<C>)
    ensures
        select(s, p).contains(x) <==> (s.contains(x) && p(x)),
    decreases s.len(),
{
    if s.len() > 0 {
        let rest = s.drop_last();
        lemma_select_contains(rest, p, x);
        let r = select(rest, p);
        if s.contains(x) && p(x) {
            let i = choose|i: int| 0 <= i < s.len() && s[i] == x;
            if i < s.len() - 1 {
                assert(rest[i] == x);
                assert(rest.contains(x));
                if p(s.last()) {
                    let k = choose|k: int| 0 <= k < r.len() && r[k] == x;
                    assert(r.push(s.last())[k] == x);
                }
            } else {
                assert(r.push(s.last())[r.len() as int] == x);
            }
        }
        if select(s, p).contains(x) {
            if p(s.last()) {
                let k = choose|k: int| 0 <= k < r.len() + 1 && r.push(s.last())[k] == x;
                if k < r.len() {
                    assert(r[k] == x);
                } else {
                    assert(s[s.len() - 1] == x);
                }
            }
            if r.contains(x) {
                let k = choose|k: int| 0 <= k < rest.len() && rest[k] == x;
                assert(s[k] == x);
            }
        }
    }
}

/// The first tile that `select` keeps is the first tile that satisfies the
/// predicate.
pub proof fn lemma_select_first<C>(s: Seq<Tile<C>>, p: spec_fn(Tile<C>) -> bool, j: int)
    requires
        0 <= j < s.len(),
        p(s[j]),
        forall|m: int| 0 <= m < j ==> !p(#[trigger] s[m]),
    ensures
        select(s, p).len() > 0,
        select(s, p)[0] == s[j],
    decreases s.len(),
{
    let rest = s.drop_last();
    if j == s.len() - 1 {
        assert forall|m: int| 0 <= m < rest.len() implies !p(#[trigger] rest[m]) by {
            assert(rest[m] == s[m]);
        }
        lemma_select_none(rest, p);
    } else {
        assert(rest[j] == s[j]);
        assert forall|m: int| 0 <= m < j implies !p(#[trigger] rest[m]) by {
            assert(rest[m] == s[m]);
        }
        lemma_select_first(rest, p, j);
    }
}

/// The first tile with id `d` exists and has status `Conjecture`.
pub open spec fn names_conjecture<C>(tiles: Seq<Tile<C>>, d: Seq<char>) -> bool {
    exists|j: int|
        0 <= j < tiles.len() && (#[trigger] tiles[j]).id@ == d && (forall|m: int|
            0 <= m < j ==> tiles[m].id@ != d) && tiles[j].status == TileStatus::Conjecture
}

/// Some dependency of `t`, at any position in its list, names a tile whose
/// first holder of that id has status `Conjecture`.
pub open spec fn has_conjecture_dependency<C>(tiles: Seq<Tile<C>>, t: Tile<C>) -> bool {
    exists|k: int|
        0 <= k < t.dependencies.len() && names_conjecture(tiles, #[trigger] t.dependencies@[k]@)
}

proof fn lemma_names_conjecture<C>(tiles: Seq<Tile<C>>, d: Seq<char>)
    ensures
        names_conjecture(tiles, d) <==> match lookup(tiles, d) {
            Some(x) => x.status == TileStatus::Conjecture,
            None => false,
        },
{
    if names_conjecture(tiles, d) {
        let j = choose|j: int|
            0 <= j < tiles.len() && (#[trigger] tiles[j]).id@ == d && (forall|m: int|
                0 <= m < j ==> tiles[m].id@ != d) && tiles[j].status == TileStatus::Conjecture;
        lemma_first_with_id(tiles, d, j);
    }
    if first_with_id(tiles, d) is Some {
        lemma_first_is_first(tiles, d);
        let j = first_with_id(tiles, d)->0;
        if tiles[j].status == TileStatus::Conjecture {
            assert(is_first_id(tiles, d, j));
            assert(tiles[j].id@ == d);
        }
    }
}

/// A tile is on the frontier exactly when one of its dependencies, at any
/// position, names a conjecture.
pub proof fn lemma_frontier_exact<C>(tiles: Seq<Tile<C>>, t: Tile<C>)
    ensures
        on_frontier(tiles, t) <==> has_conjecture_dependency(tiles, t),
{
    if on_frontier(tiles, t) {
        let k = choose|k: int|
            0 <= k < t.dependencies.len() && match lookup(tiles, #[trigger] t.dependencies@[k]@) {
                Some(d) => d.status == TileStatus::Conjecture,
                None => false,
            };
        lemma_names_conjecture(tiles, t.dependencies@[k]@);
    }
    if has_conjecture_dependency(tiles, t) {
        let k = choose|k: int|
            0 <= k < t.dependencies.len() && names_conjecture(tiles, #[trigger] t.dependencies@[k]@);
        lemma_names_conjecture(tiles, t.dependencies@[k]@);
    }
}

/// `frontier` lists exactly the tiles with a dependency, at any position,
/// on a conjecture.
pub proof fn lemma_frontier_members<C>(tiles: Seq<Tile<C>>, x: Tile<C>)
    ensures
        select(tiles, |t: Tile<C>| on_frontier(tiles, t)).contains(x) <==> (tiles.contains(x)
            && has_conjecture_dependency(tiles, x)),
{
    lemma_select_contains(tiles, |t: Tile<C>| on_frontier(tiles, t), x);
    lemma_frontier_exact(tiles, x);
}

/// `failures` lists exactly the tiles of kind `Failure` or of status
/// `Failed`, whatever their other field holds.
pub proof fn lemma_failures_members<C>(tiles: Seq<Tile<C>>, x: Tile<C>)
    ensures
        select(tiles, |t: Tile<C>| t.spec_is_failure()).contains(x) <==> (tiles.contains(x) && (
        x.kind == TileKind::Failure || x.status == TileStatus::Failed)),
{
    lemma_select_contains(tiles, |t: Tile<C>| t.spec_is_failure(), x);
}

/// `verified` lists exactly the tiles of status `Verified`.
pub proof fn lemma_verified_members<C>(tiles: Seq<Tile<C>>, x: Tile<C>)
    ensures
        select(tiles, |t: Tile<C>| t.status == TileStatus::Verified).contains(x) <==> (
        tiles.contains(x) && x.status == TileStatus::Verified),
{
    lemma_select_contains(tiles, |t: Tile<C>| t.status == TileStatus::Verified, x);
}

/// `what_changed` lists exactly the tiles whose id is not among the known
/// ids.
pub proof fn lemma_what_changed_members<C>(tiles: Seq<Tile<C>>, known: Seq<String>, x: Tile<C>)
    ensures
        select(tiles, |t: Tile<C>| !views(known).contains(t.id@)).contains(x) <==> (tiles.contains(
            x,
        ) && forall|q: int| 0 <= q < known.len() ==> (#[trigger] known[q])@ != x.id@),
{
    lemma_select_contains(tiles, |t: Tile<C>| !views(known).contains(t.id@), x);
    if views(known).contains(x.id@) {
        let q = choose|q: int| 0 <= q < views(known).len() && views(known)[q] == x.id@;
        assert(known[q]@ == x.id@);
    }
    if exists|q: int| 0 <= q < known.len() && (#[trigger] known[q])@ == x.id@ {
        let q = choose|q: int| 0 <= q < known.len() && (#[trigger] known[q])@ == x.id@;
        assert(views(known)[q] == x.id@);
    }
}

/// Where the room holds a failure, the suggestion is the id of its first
/// failure (a tile of kind `Failure` or status `Failed`), whatever the
/// frontier and the gaps hold.
pub proof fn lemma_suggest_failure_first<C>(tiles: Seq<Tile<C>>, j: int)
    requires
        0 <= j < tiles.len(),
        tiles[j].kind == TileKind::Failure || tiles[j].status == TileStatus::Failed,
        forall|m: int|
            0 <= m < j ==> (#[trigger] tiles[m]).kind != TileKind::Failure && tiles[m].status
                != TileStatus::Failed,
    ensures
        suggestion(tiles) == Some(tiles[j].id@),
{
    let p = |t: Tile<C>| t.spec_is_failure();
    assert forall|m: int| 0 <= m < j implies !p(#[trigger] tiles[m]) by {
        assert(tiles[m].kind != TileKind::Failure && tiles[m].status != TileStatus::Failed);
    }
    lemma_select_first(tiles, p, j);
}

/// Where the room holds no failure, the suggestion is the id of its first
/// tile with a dependency on a conjecture, where there is one.
pub proof fn lemma_suggest_frontier_next<C>(tiles: Seq<Tile<C>>, j: int)
    requires
        0 <= j < tiles.len(),
        has_conjecture_dependency(tiles, tiles[j]),
        forall|m: int| 0 <= m < j ==> !has_conjecture_dependency(tiles, #[trigger] tiles[m]),
        forall|m: int|
            0 <= m < tiles.len() ==> (#[trigger] tiles[m]).kind != TileKind::Failure
                && tiles[m].status != TileStatus::Failed,
    ensures
        suggestion(tiles) == Some(tiles[j].id@),
{
    let pf = |t: Tile<C>| t.spec_is_failure();
    assert forall|m: int| 0 <= m < tiles.len() implies !pf(#[trigger] tiles[m]) by {
        assert(tiles[m].kind != TileKind::Failure && tiles[m].status != TileStatus::Failed);
    }
    lemma_select_none(tiles, pf);
    let p = |t: Tile<C>| on_frontier(tiles, t);
    lemma_frontier_exact(tiles, tiles[j]);
    assert forall|m: int| 0 <= m < j implies !p(#[trigger] tiles[m]) by {
        lemma_frontier_exact(tiles, tiles[m]);
    }
    lemma_select_first(tiles, p, j);
}

/// Dependency `k` of tile `a` names tile `b` as the last tile with that id.
pub open spec fn names_last<C>(tiles: Seq<Tile<C>>, a: int, k: int, b: int) -> bool {
    &&& 0 <= k < tiles[a].dependencies.len()
    &&& 0 <= b < tiles.len()
    &&& tiles[b].id@ == tiles[a].dependencies@[k]@
    &&& forall|m: int| b < m < tiles.len() ==> tiles[m].id@ != tiles[a].dependencies@[k]@
}

proof fn lemma_links_to_exact<C>(tiles: Seq<Tile<C>>, a: int, b: int)
    requires
        0 <= a < tiles.len(),
    ensures
        links_to(tiles, a, b) <==> exists|k: int| #[trigger] names_last(tiles, a, k, b),
{
    if links_to(tiles, a, b) {
        let q = choose|q: int|
            0 <= q < tiles[a].dependencies.len() && q < tiles[a].dependencies.len()
                && last_with_id(tiles, #[trigger] tiles[a].dependencies@[q]@) == Some(b);
        let dep = tiles[a].dependencies@[q]@;
        assert(exists|j: int| is_last_id(tiles, dep, j));
        assert(is_last_id(tiles, dep, b));
        assert(names_last(tiles, a, q, b));
    }
    if exists|k: int| #[trigger] names_last(tiles, a, k, b) {
        let k = choose|k: int| #[trigger] names_last(tiles, a, k, b);
        lemma_last_with_id(tiles, tiles[a].dependencies@[k]@, b);
        assert(links_within(tiles, a, b, tiles[a].dependencies.len() as int));
    }
}

/// The dependency graph entry by entry: each tile's own confidence on the
/// diagonal; between two different tiles, the mean of their confidences
/// exactly when a dependency of either one, at any position, names the
/// other as the last tile with that id; nothing otherwise.
pub proof fn lemma_dependency_link_entries<C>(tiles: Seq<Tile<C>>, a: int, b: int)
    requires
        0 <= a < tiles.len(),
        0 <= b < tiles.len(),
    ensures
        a == b ==> link_between(tiles, a, b) == Link::Own(a as usize),
        a != b ==> link_between(tiles, a, b) == (if (exists|k: int|
            #[trigger] names_last(tiles, a, k, b)) || (exists|k: int|
            #[trigger] names_last(tiles, b, k, a)) {
            if a < b {
                Link::Mean(a as usize, b as usize)
            } else {
                Link::Mean(b as usize, a as usize)
            }
        } else {
            Link::Absent
        }),
{
    lemma_links_to_exact(tiles, a, b);
    lemma_links_to_exact(tiles, b, a);
}


/// `get` finds the first tile with the id asked for, and nothing where no
/// tile has that id.
pub proof fn lemma_lookup_exact<C>(tiles: Seq<Tile<C>>, id: Seq<char>, i: int)
    ensures
        (0 <= i < tiles.len() && tiles[i].id@ == id && forall|m: int|
            0 <= m < i ==> (#[trigger] tiles[m]).id@ != id) ==> lookup(tiles, id) == Some(tiles[i]),
        (forall|m: int| 0 <= m < tiles.len() ==> (#[trigger] tiles[m]).id@ != id) ==> lookup(
            tiles,
            id,
        ) is None,
{
    if 0 <= i < tiles.len() && tiles[i].id@ == id && forall|m: int|
        0 <= m < i ==> (#[trigger] tiles[m]).id@ != id {
        lemma_first_with_id(tiles, id, i);
    }
    if first_with_id(tiles, id) is Some {
        lemma_first_is_first(tiles, id);
    }
}

} // verus!
