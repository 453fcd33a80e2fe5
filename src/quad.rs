//! Accumulates axis-aligned quads as vertex and index data for a GPU buffer.
//! Coordinates and colour channels are carried as the bit patterns of
//! single-precision floats: this module places them and never computes with
//! them.
use vstd::prelude::*;

verus! {

/// One corner of a quad: its position and its colour.
#[derive(Clone, Copy, Debug)]
pub struct Vertex {
    pub x: u32,
    pub y: u32,
    pub color: (u32, u32, u32),
}

/// The six indices that draw quad number `q` as two triangles.
pub open spec fn corner_indices(q: nat) -> Seq<u32> {
    let b = (4 * q) as u32;
    seq![b, (b + 1) as u32, (b + 2) as u32, b, (b + 2) as u32, (b + 3) as u32]
}

/// The indices of the first `n` quads.
pub open spec fn quad_indices(n: nat) -> Seq<u32>
    decreases n,
{
    if n == 0 {
        Seq::empty()
    } else {
        quad_indices((n - 1) as nat) + corner_indices((n - 1) as nat)
    }
}

/// The four corners of a quad, counter-clockwise from the lower left.
pub open spec fn corners(
    min_x: u32,
    min_y: u32,
    max_x: u32,
    max_y: u32,
    color: (u32, u32, u32),
) -> Seq<Vertex> {
    seq![
        Vertex { x: min_x, y: min_y, color },
        Vertex { x: max_x, y: min_y, color },
        Vertex { x: max_x, y: max_y, color },
        Vertex { x: min_x, y: max_y, color },
    ]
}

pub struct QuadBufferBuilder {
    vertex_data: Vec<Vertex>,
    index_data: Vec<u32>,
    current_quad: u32,
}

impl QuadBufferBuilder {
    /// The vertices pushed so far.
    pub closed spec fn vertices(&self) -> Seq<Vertex> {
        self.vertex_data@
    }

    /// The indices pushed so far.
    pub closed spec fn indices(&self) -> Seq<u32> {
        self.index_data@
    }

    /// The number of quads pushed so far.
    pub closed spec fn quads(&self) -> nat {
        self.current_quad as nat
    }

    /// Four vertices per quad, and six indices per quad that refer to them.
    pub closed spec fn wf(&self) -> bool {
        &&& self.vertex_data@.len() == 4 * self.current_quad
        &&& self.index_data@ == quad_indices(self.current_quad as nat)
    }

    pub fn new() -> (r: QuadBufferBuilder)
        ensures
            r.wf(),
            r.vertices() == Seq::<Vertex>::empty(),
            r.indices() == Seq::<u32>::empty(),
            r.quads() == 0,
    {
        QuadBufferBuilder { vertex_data: Vec::new(), index_data: Vec::new(), current_quad: 0 }
    }

    /// Appends the quad spanning `min_x..max_x` by `min_y..max_y` in one colour.
    pub fn push_quad(
        self,
        min_x: u32,
        min_y: u32,
        max_x: u32,
        max_y: u32,
        color: (u32, u32, u32),
    ) -> (r: QuadBufferBuilder)
        requires
            self.wf(),
            self.quads() <= u32::MAX / 4,
        ensures
            r.wf(),
            r.vertices() == self.vertices() + corners(min_x, min_y, max_x, max_y, color),
            r.indices() == self.indices() + corner_indices(self.quads()),
            r.quads() == self.quads() + 1,
    {
        let mut vertex_data = self.vertex_data;
        let mut index_data = self.index_data;
        let q = self.current_quad;
        let ghost vs = vertex_data@;
        let ghost is = index_data@;
        vertex_data.push(Vertex { x: min_x, y: min_y, color });
        vertex_data.push(Vertex { x: max_x, y: min_y, color });
        vertex_data.push(Vertex { x: max_x, y: max_y, color });
        vertex_data.push(Vertex { x: min_x, y: max_y, color });
        let b = q * 4;
        index_data.push(b);
        index_data.push(b + 1);
        index_data.push(b + 2);
        index_data.push(b);
        index_data.push(b + 2);
        index_data.push(b + 3);
        proof {
            assert(vertex_data@ =~= vs + corners(min_x, min_y, max_x, max_y, color));
            assert(index_data@ =~= is + corner_indices(q as nat));
            assert(quad_indices((q + 1) as nat) == quad_indices(q as nat) + corner_indices(
                q as nat,
            ));
        }
        QuadBufferBuilder { vertex_data, index_data, current_quad: q + 1 }
    }

    /// The vertex data, four vertices per quad in the order pushed.
    pub fn vertex_data(&self) -> (r: &Vec<Vertex>)
        ensures
            r@ == self.vertices(),
    {
        &self.vertex_data
    }

    /// The index data, six indices per quad in the order pushed.
    pub fn index_data(&self) -> (r: &Vec<u32>)
        ensures
            r@ == self.indices(),
    {
        &self.index_data
    }

    /// The number of indices to draw.
    pub fn index_count(&self) -> (r: u32)
        requires
            self.wf(),
            self.quads() <= u32::MAX / 6,
        ensures
            r == self.indices().len(),
    {
        proof {
            lemma_quad_indices_len(self.current_quad as nat);
        }
        self.index_data.len() as u32
    }
}

proof fn lemma_quad_indices_len(n: nat)
    ensures
        quad_indices(n).len() == 6 * n,
    decreases n,
{
    if n > 0 {
        lemma_quad_indices_len((n - 1) as nat);
    }
}

} // verus!
