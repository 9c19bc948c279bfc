use vstd::prelude::*;

verus! {

/// One stage of a service chain, as far as placement is concerned.
#[derive(Clone, Copy, Debug, PartialEq, Eq)]
pub struct VNF {
    /// The longest queue the VNF holds.
    pub queue_length: usize,
    /// The server capacity the VNF takes up.
    pub size: usize,
}

/// A service: a chain of VNFs that traffic passes through in order.
#[derive(Debug)]
pub struct Service {
    pub id: usize,
    pub vnfs: Vec<VNF>,
}

impl Service {
    /// The sizes of the VNFs, stage by stage.
    pub open spec fn sizes(&self) -> Seq<usize> {
        Seq::new(self.vnfs.len() as nat, |t: int| self.vnfs[t].size)
    }
}

impl Clone for Service {
    fn clone(&self) -> (r: Self)
        ensures
            r.id == self.id,
            r.vnfs@ == self.vnfs@,
    {
        Service { id: self.id, vnfs: self.vnfs.clone() }
    }
}

} // verus!
