//! The triangles of a mesh: which vertices each is made of.

use vstd::prelude::*;

verus! {

/// How many vertices a mesh has, and its triangles, three vertices each.
#[derive(Debug, Clone)]
pub struct Triangles {
    pub vertices: u32,
    pub indices: Vec<u32>,
}

/// The two triangles of four corners that start at vertex `base`.
pub open spec fn quad_corners(base: int) -> Seq<u32> {
    seq![
        base as u32,
        (base + 1) as u32,
        (base + 2) as u32,
        base as u32,
        (base + 2) as u32,
        (base + 3) as u32,
    ]
}

impl Triangles {
    /// Whole triangles, over vertices that are there.
    pub open spec fn wf(self) -> bool {
        &&& self.indices@.len() % 3 == 0
        &&& forall|i: int|
            0 <= i < self.indices@.len() ==> #[trigger] self.indices@[i] < self.vertices
    }

    pub fn new() -> (out: Self)
        ensures
            out.wf(),
            out.vertices == 0,
            out.indices@ == Seq::<u32>::empty(),
    {
        Triangles { vertices: 0, indices: Vec::new() }
    }

    /// Three more vertices, and the triangle they make.
    pub fn tri(&mut self)
        requires
            old(self).wf(),
            old(self).vertices + 3 <= u32::MAX,
        ensures
            final(self).wf(),
            final(self).vertices == old(self).vertices + 3,
            final(self).indices@ == old(self).indices@ + seq![
                old(self).vertices,
                (old(self).vertices + 1) as u32,
                (old(self).vertices + 2) as u32,
            ],
    {
        let base: u32 = self.vertices;
        self.indices.push(base);
        self.indices.push(base + 1);
        self.indices.push(base + 2);
        self.vertices = base + 3;
        assert(self.indices@ =~= old(self).indices@ + seq![
            base,
            (base + 1) as u32,
            (base + 2) as u32,
        ]);
    }

    /// Four more vertices, and the two triangles they make.
    pub fn quad(&mut self)
        requires
            old(self).wf(),
            old(self).vertices + 4 <= u32::MAX,
        ensures
            final(self).wf(),
            final(self).vertices == old(self).vertices + 4,
            final(self).indices@ == old(self).indices@ + quad_corners(old(self).vertices as int),
    {
        let base: u32 = self.vertices;
        self.indices.push(base);
        self.indices.push(base + 1);
        self.indices.push(base + 2);
        self.indices.push(base);
        self.indices.push(base + 2);
        self.indices.push(base + 3);
        self.vertices = base + 4;
        assert(self.indices@ =~= old(self).indices@ + quad_corners(base as int));
    }

    /// Whether there is anything to draw.
    pub fn drawn(&self) -> (yes: bool)
        ensures
            yes == (self.indices@.len() > 0),
    {
        self.indices.len() > 0
    }
}

/// The triangles of `count` quads one after the other.
pub open spec fn quads_of(count: nat) -> Seq<u32>
    decreases count,
{
    if count == 0 {
        Seq::empty()
    } else {
        quads_of((count - 1) as nat) + quad_corners(4 * (count - 1))
    }
}

/// A mesh of `count` quads.
pub fn quads(count: usize) -> (out: Triangles)
    requires
        4 * count <= u32::MAX,
    ensures
        out.wf(),
        out.vertices == 4 * count,
        out.indices@ == quads_of(count as nat),
{
    let mut out = Triangles::new();
    let mut i: usize = 0;
    while i < count
        invariant
            i <= count,
            4 * count <= u32::MAX,
            out.wf(),
            out.vertices == 4 * i,
            out.indices@ == quads_of(i as nat),
        decreases count - i,
    {
        out.quad();
        i = i + 1;
    }
    out
}

/// The triangles of a row of quads: each quad's two are made of its own four corners, one
/// on each side of the line from the first to the third.
pub proof fn each_quad_has_its_own_corners(count: nat, q: int)
    requires
        0 <= q < count,
        4 * count <= u32::MAX,
    ensures
        quads_of(count).len() == 6 * count,
        quads_of(count)[6 * q] == 4 * q,
        quads_of(count)[6 * q + 1] == 4 * q + 1,
        quads_of(count)[6 * q + 2] == 4 * q + 2,
        quads_of(count)[6 * q + 3] == 4 * q,
        quads_of(count)[6 * q + 4] == 4 * q + 2,
        quads_of(count)[6 * q + 5] == 4 * q + 3,
    decreases count,
{
    let rest = (count - 1) as nat;
    lemma_quads_len(rest);
    if q < rest {
        each_quad_has_its_own_corners(rest, q);
    }
}

proof fn lemma_quads_len(count: nat)
    ensures
        quads_of(count).len() == 6 * count,
    decreases count,
{
    if count > 0 {
        lemma_quads_len((count - 1) as nat);
    }
}

} // verus!
