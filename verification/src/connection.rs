//! The dense bigram transition-cost matrix.

use vstd::prelude::*;

use vstd::string::StringExecFns;

use crate::blob::{le16_at, read_i16_le, read_u16_le, sig16_at};
use crate::error::{LinderaError, LinderaErrorKind};
use crate::LinderaResult;

verus! {

/// A dense `cost(left, right)` lookup over fixed cardinalities.  `costs` is a
/// row-major grid: row `left`, column `right`.
pub struct ConnectionCostMatrix {
    pub forward_size: u16,
    pub backward_size: u16,
    pub costs: Vec<i16>,
}

impl ConnectionCostMatrix {
    /// The matrix holds exactly one cost for each pair of context ids.
    pub open spec fn wf(&self) -> bool {
        self.costs@.len() == self.forward_size as int * self.backward_size as int
    }

    /// The cost stored for the pair.
    pub open spec fn cost_spec(&self, left: int, right: int) -> int {
        self.costs@[left * self.backward_size as int + right] as int
    }

    /// A matrix with no contexts; what loading an empty blob yields.
    pub fn empty() -> (r: Self)
        ensures
            r.wf(),
            r.forward_size == 0,
            r.backward_size == 0,
    {
        ConnectionCostMatrix { forward_size: 0, backward_size: 0, costs: Vec::new() }
    }

    /// The transition cost from the right context of the previous word to the
    /// left context of the next one.
    pub fn cost(&self, left: u16, right: u16) -> (r: i32)
        requires
            self.wf(),
            left < self.forward_size,
            right < self.backward_size,
        ensures
            r == self.cost_spec(left as int, right as int),
    {
        proof {
            assert(left as int * self.backward_size as int + right < self.forward_size as int
                * self.backward_size as int) by (nonlinear_arith)
                requires
                    left < self.forward_size,
                    right < self.backward_size,
            ;
        }
        let n = self.costs.len();
        let idx: usize = (left as usize) * (self.backward_size as usize) + (right as usize);
        self.costs[idx] as i32
    }

    /// Loads a matrix from its binary blob: a header of the two cardinalities
    /// as little-endian 16-bit words, then the grid as little-endian 16-bit
    /// costs, row-major, decoded exactly.  A blob of the wrong size is
    /// rejected whole.
    pub fn load(data: &Vec<u8>) -> (r: LinderaResult<Self>)
        ensures
            r is Ok <==> data@.len() >= 4 && data@.len() as int == 4 + 2 * (le16_at(data@, 0)
                * le16_at(data@, 2)),
            match r {
                Ok(m) => {
                    &&& m.wf()
                    &&& m.forward_size == le16_at(data@, 0)
                    &&& m.backward_size == le16_at(data@, 2)
                    &&& data@.len() == 4 + 2 * (m.forward_size as int * m.backward_size as int)
                    &&& forall|i: int|
                        0 <= i < m.costs@.len() ==> #[trigger] m.costs@[i] == sig16_at(
                            data@,
                            4 + 2 * i,
                        )
                },
                Err(e) => e.kind == LinderaErrorKind::Deserialize,
            },
    {
        if data.len() < 4 {
            return Err(
                LinderaErrorKind::Deserialize.with_error(
                    String::from_str("connection matrix blob too short"),
                ),
            );
        }
        let dlen = data.len();
        let forward_size = read_u16_le(data, 0);
        let backward_size = read_u16_le(data, 2);
        proof {
            assert(forward_size as int * backward_size as int <= 0xffff * 0xffff)
                by (nonlinear_arith)
                requires
                    forward_size <= 0xffff,
                    backward_size <= 0xffff,
            ;
        }
        let cells: usize = (forward_size as usize) * (backward_size as usize);
        if (data.len() - 4) / 2 != cells || (data.len() - 4) % 2 != 0 {
            return Err(
                LinderaErrorKind::Deserialize.with_error(
                    String::from_str("connection matrix blob size mismatch"),
                ),
            );
        }
        proof {
            assert(data@.len() as int - 4 == 2 * cells);
        }
        let mut costs: Vec<i16> = Vec::new();
        let mut i: usize = 0;
        while i < cells
            invariant
                i <= cells,
                costs@.len() == i,
                4 + 2 * cells <= data@.len() <= usize::MAX,
                forall|j: int| 0 <= j < i ==> #[trigger] costs@[j] == sig16_at(data@, 4 + 2 * j),
            decreases cells - i,
        {
            costs.push(read_i16_le(data, 4 + 2 * i));
            i = i + 1;
        }
        proof {
            assert(costs@.len() == cells);
            assert(cells == forward_size as int * backward_size as int);
            assert(data@.len() == 4 + 2 * (forward_size as int * backward_size as int));
        }
        Ok(ConnectionCostMatrix { forward_size, backward_size, costs })
    }
}

} // verus!
