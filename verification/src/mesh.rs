//! The CPU side of a vertex buffer and an index buffer bundled together for batched drawing
//! of general meshes: the buffers are filled here and uploaded by the renderer.
use vstd::prelude::*;

verus! {

/// Vertices and the indices into them that describe a batch of meshes. Also keeps the
/// length of the index buffer without the padding that an upload needs.
pub struct DynamicMeshBuffers<Vert> {
    pub vertices: Vec<Vert>,
    pub indices: Vec<u16>,
    /// indices might have to be padded, store len without padding
    unpadded_idx_len: u32,
}

/// `idx` shifted to point past the `root` vertices already in the buffer.
pub open spec fn shifted(idx: Seq<u16>, root: u16) -> Seq<u16> {
    idx.map_values(|i: u16| (root + i) as u16)
}

/// After `extend`, each new index points at the new vertex it pointed at among the new ones:
/// shifting counts it from the first new vertex, past the vertices already there.
pub proof fn lemma_shifted_point_at_new_vertices<Vert>(before: Seq<Vert>, added: Seq<Vert>, idx: Seq<u16>)
    requires
        before.len() <= u16::MAX,
        forall|k: int| 0 <= k < idx.len() ==> (#[trigger] idx[k]) < added.len(),
        forall|k: int| 0 <= k < idx.len() ==> before.len() + #[trigger] idx[k] <= u16::MAX,
    ensures
        shifted(idx, before.len() as u16).len() == idx.len(),
        forall|k: int| 0 <= k < idx.len() ==> {
            &&& (#[trigger] shifted(idx, before.len() as u16)[k]) < before.len() + added.len()
            &&& (before + added)[shifted(idx, before.len() as u16)[k] as int] == added[idx[k] as int]
        },
{
    assert forall|k: int| 0 <= k < idx.len() implies {
        &&& (#[trigger] shifted(idx, before.len() as u16)[k]) < before.len() + added.len()
        &&& (before + added)[shifted(idx, before.len() as u16)[k] as int] == added[idx[k] as int]
    } by {
        assert(shifted(idx, before.len() as u16)[k] == before.len() + idx[k]);
    }
}

impl<Vert> DynamicMeshBuffers<Vert> {
    /// The vertices.
    pub closed spec fn vertex_seq(&self) -> Seq<Vert> {
        self.vertices@
    }

    /// The indices into the vertices.
    pub closed spec fn index_seq(&self) -> Seq<u16> {
        self.indices@
    }

    /// The number of indices written before padding.
    pub closed spec fn unpadded_len(&self) -> u32 {
        self.unpadded_idx_len
    }

    /// Empty buffers.
    pub fn new() -> (r: Self)
        ensures
            r.vertex_seq() == Seq::<Vert>::empty(),
            r.index_seq() == Seq::<u16>::empty(),
            r.unpadded_len() == 0,
    {
        DynamicMeshBuffers { vertices: Vec::new(), indices: Vec::new(), unpadded_idx_len: 0 }
    }

    /// Clear `self.vertices` and `self.indices`.
    pub fn clear(&mut self)
        ensures
            final(self).vertex_seq() == Seq::<Vert>::empty(),
            final(self).index_seq() == Seq::<u16>::empty(),
            final(self).unpadded_len() == old(self).unpadded_len(),
    {
        self.vertices.clear();
        self.indices.clear();
    }

    /// Extend the vertex and index buffers in one go, shifting indices appropriately: each new
    /// index is counted from the first of the new vertices. The number of vertices already
    /// there is taken as a `u16`, and no shifted index may pass `u16::MAX`.
    pub fn extend(&mut self, vertices: Vec<Vert>, indices: Vec<u16>)
        requires
            forall|k: int| 0 <= k < indices@.len()
                ==> (#[verifier::truncate] (old(self).vertex_seq().len() as u16)) + #[trigger] indices@[k] <= u16::MAX,
        ensures
            final(self).vertex_seq() == old(self).vertex_seq() + vertices@,
            final(self).index_seq() == old(self).index_seq() + shifted(indices@, #[verifier::truncate] (old(self).vertex_seq().len() as u16)),
            final(self).unpadded_len() == old(self).unpadded_len(),
    {
        let root_idx = #[verifier::truncate] (self.vertices.len() as u16);
        let ghost v0 = self.vertices@;
        let ghost i0 = self.indices@;
        let ghost vs = vertices@;
        let ghost u0 = self.unpadded_idx_len;
        let mut vertices = vertices;
        self.vertices.append(&mut vertices);
        let mut k: usize = 0;
        while k < indices.len()
            invariant
                k <= indices@.len(),
                root_idx == #[verifier::truncate] (v0.len() as u16),
                self.vertices@ == v0 + vs,
                self.unpadded_idx_len == u0,
                forall|j: int| 0 <= j < indices@.len() ==> root_idx + #[trigger] indices@[j] <= u16::MAX,
                self.indices@ == i0 + shifted(indices@.take(k as int), root_idx),
            decreases indices@.len() - k,
        {
            let idx = indices[k];
            self.indices.push(root_idx + idx);
            proof {
                assert(indices@.take(k + 1) =~= indices@.take(k as int).push(idx));
                assert(shifted(indices@.take(k + 1), root_idx) =~= shifted(indices@.take(k as int), root_idx).push(
                    (root_idx + idx) as u16,
                ));
                assert(self.indices@ =~= i0 + shifted(indices@.take(k + 1), root_idx));
            }
            k += 1;
        }
        proof {
            assert(indices@.take(indices@.len() as int) =~= indices@);
        }
    }

    /// Get the index buffer ready for upload: remember its length, then pad it with zeros to
    /// an even length, a multiple of 4 bytes.
    pub fn pad_indices(&mut self)
        requires
            old(self).index_seq().len() <= u32::MAX,
        ensures
            final(self).vertex_seq() == old(self).vertex_seq(),
            final(self).unpadded_len() == old(self).index_seq().len(),
            final(self).index_seq() == if old(self).index_seq().len() % 2 == 0 {
                old(self).index_seq()
            } else {
                old(self).index_seq().push(0)
            },
    {
        self.unpadded_idx_len = self.indices.len() as u32;
        if self.indices.len() % 2 == 1 {
            self.indices.push(0);
        }
    }

    /// Get the range of indices that have been written to the index buffer, from 0 to this
    /// end.
    pub fn index_range(&self) -> (r: (u32, u32))
        ensures
            r == (0u32, self.unpadded_len()),
    {
        (0, self.unpadded_idx_len)
    }
}

} // verus!
