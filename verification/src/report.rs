//! What a collision query hands back.

use vstd::prelude::*;

verus! {

/// The contents of a report as sequences.
pub struct ReportView<V> {
    pub depths: Seq<V>,
    pub positions: Seq<V>,
    pub index: Seq<isize>,
}

impl<V> ReportView<V> {
    /// The report of a query that hit nothing.
    pub open spec fn empty() -> Self {
        ReportView { depths: Seq::empty(), positions: Seq::empty(), index: Seq::empty() }
    }

    /// The report that lists what `self` lists and then what `other` lists.
    pub open spec fn concat(self, other: Self) -> Self {
        ReportView {
            depths: self.depths + other.depths,
            positions: self.positions + other.positions,
            index: self.index + other.index,
        }
    }

    /// Whether the report lists a contact.
    pub open spec fn collision(self) -> bool {
        self.positions.len() > 0
    }

    /// Every contact has a depth and a position.
    pub open spec fn wf(self) -> bool {
        self.depths.len() == self.positions.len()
    }
}

/// Joining reports is associative, and the empty report changes nothing.
pub proof fn lemma_concat_laws<V>(a: ReportView<V>, b: ReportView<V>, c: ReportView<V>)
    ensures
        a.concat(b).concat(c) == a.concat(b.concat(c)),
        a.concat(ReportView::empty()) == a,
        ReportView::<V>::empty().concat(a) == a,
        a.wf() && b.wf() ==> a.concat(b).wf(),
{
    assert((a.depths + b.depths) + c.depths =~= a.depths + (b.depths + c.depths));
    assert((a.positions + b.positions) + c.positions =~= a.positions + (b.positions
        + c.positions));
    assert((a.index + b.index) + c.index =~= a.index + (b.index + c.index));
    assert(a.depths + Seq::<V>::empty() =~= a.depths);
    assert(a.positions + Seq::<V>::empty() =~= a.positions);
    assert(a.index + Seq::<isize>::empty() =~= a.index);
    assert(Seq::<V>::empty() + a.depths =~= a.depths);
    assert(Seq::<V>::empty() + a.positions =~= a.positions);
    assert(Seq::<isize>::empty() + a.index =~= a.index);
}

/// The contacts that a query found: for each one the penetration depth, a
/// vector from the surface of the shape to the contact, and the position
/// of the contact; for a query against a grid also the occupants that were
/// hit. `V` is the type of a vector.
pub struct CollisionReport<V> {
    pub depths: Vec<V>,
    pub positions: Vec<V>,
    pub index: Vec<isize>,
}

impl<V> View for CollisionReport<V> {
    type V = ReportView<V>;

    open spec fn view(&self) -> ReportView<V> {
        ReportView { depths: self.depths@, positions: self.positions@, index: self.index@ }
    }
}

impl<V> CollisionReport<V> {
    /// Every contact has a depth and a position.
    pub open spec fn wf(&self) -> bool {
        self@.wf()
    }

    /// The report of a query that hit nothing.
    pub fn none() -> (r: Self)
        ensures
            r@ == ReportView::<V>::empty(),
            r.wf(),
    {
        CollisionReport { depths: Vec::new(), positions: Vec::new(), index: Vec::new() }
    }

    /// The report of a single contact.
    pub fn new(depth: V, position: V) -> (r: Self)
        ensures
            r@ == (ReportView { depths: seq![depth], positions: seq![position], index: seq![] }),
            r.wf(),
    {
        let mut depths: Vec<V> = Vec::new();
        depths.push(depth);
        let mut positions: Vec<V> = Vec::new();
        positions.push(position);
        let r = CollisionReport { depths, positions, index: Vec::new() };
        assert(r.depths@ =~= seq![depth]);
        assert(r.positions@ =~= seq![position]);
        assert(r.index@ =~= seq![]);
        r
    }

    /// The report of a single contact with an occupant of a grid.
    pub fn with_occupant(depth: V, position: V, occupant: isize) -> (r: Self)
        ensures
            r@ == (ReportView {
                depths: seq![depth],
                positions: seq![position],
                index: seq![occupant],
            }),
            r.wf(),
    {
        let mut r = Self::new(depth, position);
        r.index.push(occupant);
        assert(r.index@ =~= seq![occupant]);
        r
    }

    /// Whether the query hit anything.
    pub fn collision(&self) -> (c: bool)
        ensures
            c == self@.collision(),
            c == (self.positions@.len() != 0),
    {
        self.positions.len() != 0
    }

    /// Number of contacts.
    pub fn len(&self) -> (n: usize)
        ensures
            n == self.positions@.len(),
    {
        self.positions.len()
    }

    /// Appends the contacts of `rhs` to those of `self`.
    pub fn add_assign(&mut self, rhs: Self)
        ensures
            final(self)@ == old(self)@.concat(rhs@),
            old(self).wf() && rhs.wf() ==> final(self).wf(),
    {
        let mut rhs = rhs;
        self.depths.append(&mut rhs.depths);
        self.positions.append(&mut rhs.positions);
        self.index.append(&mut rhs.index);
    }
}

impl<V> CollisionReport<V> {
    /// The report with every depth replaced by what `on_depth` makes of it
    /// and every position by what `on_position` makes of it. The occupants
    /// are carried over as they are.
    pub fn transformed<D: Fn(&V) -> V, P: Fn(&V) -> V>(&self, on_depth: D, on_position: P) -> (r:
        Self)
        requires
            forall|i: int| 0 <= i < self.depths@.len() ==> on_depth.requires((&#[trigger] self.depths@[i],)),
            forall|i: int|
                0 <= i < self.positions@.len() ==> on_position.requires(
                    (&#[trigger] self.positions@[i],),
                ),
        ensures
            carried(self.depths@, r.depths@, on_depth),
            carried(self.positions@, r.positions@, on_position),
            r.index@ == self.index@,
            self.wf() ==> r.wf(),
    {
        let mut depths: Vec<V> = Vec::new();
        let mut i: usize = 0;
        while i < self.depths.len()
            invariant
                i <= self.depths@.len(),
                depths@.len() == i,
                forall|k: int|
                    0 <= k < self.depths@.len() ==> on_depth.requires(
                        (&#[trigger] self.depths@[k],),
                    ),
                forall|k: int|
                    0 <= k < i ==> on_depth.ensures((&self.depths@[k],), #[trigger] depths@[k]),
            decreases self.depths@.len() - i,
        {
            let v = on_depth(&self.depths[i]);
            depths.push(v);
            i = i + 1;
        }
        let mut positions: Vec<V> = Vec::new();
        let mut j: usize = 0;
        while j < self.positions.len()
            invariant
                j <= self.positions@.len(),
                positions@.len() == j,
                forall|k: int|
                    0 <= k < self.positions@.len() ==> on_position.requires(
                        (&#[trigger] self.positions@[k],),
                    ),
                forall|k: int|
                    0 <= k < j ==> on_position.ensures(
                        (&self.positions@[k],),
                        #[trigger] positions@[k],
                    ),
            decreases self.positions@.len() - j,
        {
            let v = on_position(&self.positions[j]);
            positions.push(v);
            j = j + 1;
        }
        let mut index: Vec<isize> = Vec::new();
        let mut n: usize = 0;
        while n < self.index.len()
            invariant
                n <= self.index@.len(),
                index@ == self.index@.take(n as int),
            decreases self.index@.len() - n,
        {
            index.push(self.index[n]);
            assert(self.index@.take(n + 1) =~= self.index@.take(n as int).push(self.index@[n as int]));
            n = n + 1;
        }
        assert(self.index@.take(self.index@.len() as int) =~= self.index@);
        CollisionReport { depths, positions, index }
    }
}

/// Whether `to` holds, place by place, what `f` makes of the vectors in
/// `from`.
pub open spec fn carried<V, F: Fn(&V) -> V>(from: Seq<V>, to: Seq<V>, f: F) -> bool {
    &&& to.len() == from.len()
    &&& forall|i: int| 0 <= i < from.len() ==> f.ensures((&from[i],), #[trigger] to[i])
}

/// Vectors that are carried somewhere and then carried back by the
/// inverse come back as they were.
pub proof fn lemma_there_and_back<V, F: Fn(&V) -> V, G: Fn(&V) -> V>(
    start: Seq<V>,
    there: Seq<V>,
    back: Seq<V>,
    f: F,
    g: G,
)
    requires
        carried(start, there, f),
        carried(there, back, g),
        forall|v: V, w: V, u: V| #[trigger]
            f.ensures((&v,), w) && #[trigger] g.ensures((&w,), u) ==> u == v,
    ensures
        back == start,
{
    assert forall|i: int| 0 <= i < start.len() implies back[i] == start[i] by {
        assert(f.ensures((&start[i],), there[i]));
        assert(g.ensures((&there[i],), back[i]));
    }
    assert(back =~= start);
}

} // verus!
