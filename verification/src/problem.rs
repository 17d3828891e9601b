//! A small problem for trying things out.

use vstd::prelude::*;

verus! {

/// A problem with one row of setup times for each machine.
pub struct Problem {
    pub n_jobs: u32,
    pub m_stages: u32,
    pub machines: Vec<u32>,
    pub processing_times: Vec<Vec<u32>>,
    pub setup_times: Vec<Vec<u32>>,
}

/// A table of `rows` rows of `width` ones.
fn ones(rows: usize, width: usize) -> (r: Vec<Vec<u32>>)
    ensures
        r.len() == rows,
        forall|i: int| 0 <= i < rows ==> (#[trigger] r@[i])@ == Seq::new(width as nat, |j: int| 1u32),
{
    let mut table: Vec<Vec<u32>> = Vec::with_capacity(rows);
    let mut i: usize = 0;
    while i < rows
        invariant
            i <= rows,
            table.len() == i,
            forall|k: int|
                0 <= k < i ==> (#[trigger] table@[k])@ == Seq::new(width as nat, |j: int| 1u32),
        decreases rows - i,
    {
        let mut row: Vec<u32> = Vec::with_capacity(width);
        let mut j: usize = 0;
        while j < width
            invariant
                j <= width,
                row@ == Seq::new(j as nat, |j: int| 1u32),
            decreases width - j,
        {
            row.push(1);
            j += 1;
            assert(row@ =~= Seq::new(j as nat, |j: int| 1u32));
        }
        table.push(row);
        i += 1;
    }
    table
}

impl Problem {
    /// The toy problem: five jobs, two stages with two machines and one,
    /// and setup times of one throughout.
    pub fn toy_problem() -> (r: Problem)
        ensures
            r.n_jobs == 5,
            r.m_stages == 2,
            r.machines@ == seq![2u32, 1u32],
            r.processing_times.deep_view() == seq![
                seq![71u32, 98u32],
                seq![51u32, 54u32],
                seq![0u32, 49u32],
                seq![94u32, 28u32],
                seq![29u32, 90u32],
            ],
            r.setup_times.len() == 10,
            forall|i: int|
                0 <= i < 10 ==> (#[trigger] r.setup_times@[i])@ == Seq::new(5, |j: int| 1u32),
    {
        let processing_times: Vec<Vec<u32>> = vec![
            vec![71, 98],
            vec![51, 54],
            vec![0, 49],
            vec![94, 28],
            vec![29, 90],
        ];
        proof {
            let expected = seq![
                seq![71u32, 98u32],
                seq![51u32, 54u32],
                seq![0u32, 49u32],
                seq![94u32, 28u32],
                seq![29u32, 90u32],
            ];
            assert(processing_times.deep_view() =~~= expected) by {
                assert forall|i: int| 0 <= i < 5 implies #[trigger] processing_times.deep_view()[i]
                    =~= expected[i] by {
                    assert(processing_times@[i].deep_view() =~= processing_times@[i]@);
                }
            }
        }
        Problem {
            n_jobs: 5,
            m_stages: 2,
            machines: vec![2, 1],
            processing_times,
            setup_times: ones(10, 5),
        }
    }
}

} // verus!
