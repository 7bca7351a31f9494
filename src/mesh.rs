use vstd::prelude::*;
use crate::facet::{Facet, Occlusion, all_wf, camera_ok, is_occlusion_result};
use crate::linalg::mat_of;

verus! {

/// The mesh, in four-dimensional space.
pub struct Mesh {
    /// The cells of its boundary.
    pub facets: Vec<Facet>,
}

impl Mesh {
    /// Every cell is well formed.
    pub open spec fn wf(&self) -> bool {
        all_wf(self.facets@)
    }

    /// Projects the mesh through the camera `p`: for every texture of every
    /// drawn cell, the polygons that hide parts of it and its embedding in
    /// screen coordinates.
    pub fn project(&self, p: &Vec<Vec<i128>>) -> (r: Vec<Occlusion>)
        requires
            self.wf(),
            camera_ok(mat_of(p)),
        ensures
            is_occlusion_result(self.facets@, mat_of(p), r@),
    {
        Facet::do_all_occlusions(self.facets.as_slice(), p)
    }
}

} // verus!
