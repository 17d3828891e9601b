//! Partially mapped crossover: each child takes a segment of the other
//! parent; outside the segment it holds the jobs of its own parent, mapped
//! along the segment until no job occurs twice.

use crate::chromosome::Chromosome;
use crate::crossover::order::lemma_place_of;
use crate::crossover::Crossover;
use crate::crowding::place_of;
use crate::makespan::Makespan;
use crate::permutation::{is_permutation, lemma_partial_length, lemma_permutation_covers};
use crate::random::draw_in;
use rand::rngs::StdRng;
use vstd::prelude::*;

verus! {

/// Partially mapped crossover.
pub struct PMX;

/// What the partially mapped crossover with the segment from `x1` up to
/// `x2` maps each job to: the job that the other parent holds in the
/// segment is mapped to the job that the own parent holds at the same
/// place; the other jobs are mapped to nothing.
pub open spec fn pmx_map(own: Seq<u32>, other: Seq<u32>, x1: int, x2: int) -> Seq<Option<usize>> {
    Seq::new(
        own.len(),
        |v: int|
            if x1 <= place_of(other, v as u32) < x2 {
                Some(own[place_of(other, v as u32)] as usize)
            } else {
                None
            },
    )
}

/// Every job of `c` but the first is what `map` maps the job before it to.
pub open spec fn is_chain(map: Seq<Option<usize>>, c: Seq<u32>) -> bool {
    &&& c.len() >= 1
    &&& forall|j: int| 0 <= j < c.len() ==> #[trigger] c[j] < map.len()
    &&& forall|j: int| 1 <= j < c.len() ==> map[c[j - 1] as int] == Some(#[trigger] c[j] as usize)
}

/// Following `map` from `start` ends at `end`, which is mapped to nothing.
pub open spec fn chain_end(map: Seq<Option<usize>>, start: u32, end: u32) -> bool {
    exists|c: Seq<u32>|
        #[trigger] is_chain(map, c) && c[0] == start && c.last() == end && map[end as int].is_none()
}

/// No two jobs are mapped to the same job, and jobs are mapped to jobs.
pub open spec fn one_to_one(map: Seq<Option<usize>>) -> bool {
    &&& forall|a: int|
        0 <= a < map.len() && (#[trigger] map[a]).is_some() ==> map[a].unwrap() < map.len()
    &&& forall|a: int, b: int|
        0 <= a < map.len() && 0 <= b < map.len() && (#[trigger] map[a]).is_some() && map[a]
            == #[trigger] map[b] ==> a == b
}

/// No job is mapped to `job`.
pub open spec fn is_source(map: Seq<Option<usize>>, job: u32) -> bool {
    forall|a: int| 0 <= a < map.len() ==> #[trigger] map[a] != Some(job as usize)
}

/// Two chains of a one-to-one map that begin at jobs that no job is mapped to and end at
/// the same job are the same chain.
pub proof fn lemma_chain_unique(map: Seq<Option<usize>>, c: Seq<u32>, d: Seq<u32>)
    requires
        one_to_one(map),
        is_chain(map, c),
        is_chain(map, d),
        is_source(map, c[0]),
        is_source(map, d[0]),
        c.last() == d.last(),
    ensures
        c == d,
    decreases c.len(),
{
    if c.len() == 1 {
        if d.len() > 1 {
            let j = d.len() - 1;
            assert(d[j] < map.len());
            assert(d[j - 1] < map.len());
            assert(map[d[j - 1] as int] == Some(d[j] as usize));
        }
        assert(c =~= d);
    } else if d.len() == 1 {
        let j = c.len() - 1;
        assert(c[j] < map.len());
        assert(c[j - 1] < map.len());
        assert(map[c[j - 1] as int] == Some(c[j] as usize));
    } else {
        let jc = c.len() - 1;
        let jd = d.len() - 1;
        assert(c[jc] < map.len() && c[jc - 1] < map.len());
        assert(d[jd] < map.len() && d[jd - 1] < map.len());
        assert(map[c[jc - 1] as int] == Some(c[jc] as usize));
        assert(map[d[jd - 1] as int] == Some(d[jd] as usize));
        assert(c[jc - 1] == d[jd - 1]);
        let c0 = c.drop_last();
        let d0 = d.drop_last();
        assert(is_chain(map, c0)) by {
            assert forall|j: int| 1 <= j < c0.len() implies map[c0[j - 1] as int] == Some(
                #[trigger] c0[j] as usize,
            ) by {
                assert(c0[j] == c[j]);
            }
            assert forall|j: int| 0 <= j < c0.len() implies #[trigger] c0[j] < map.len() by {
                assert(c0[j] == c[j]);
            }
        }
        assert(is_chain(map, d0)) by {
            assert forall|j: int| 1 <= j < d0.len() implies map[d0[j - 1] as int] == Some(
                #[trigger] d0[j] as usize,
            ) by {
                assert(d0[j] == d[j]);
            }
            assert forall|j: int| 0 <= j < d0.len() implies #[trigger] d0[j] < map.len() by {
                assert(d0[j] == d[j]);
            }
        }
        lemma_chain_unique(map, c0, d0);
        assert(c =~= c0.push(c.last()));
        assert(d =~= d0.push(d.last()));
    }
}

/// Follows `mapping` from `start` to the job that is mapped to nothing.
pub fn follow(mapping: &Vec<Option<usize>>, start: u32) -> (end: u32)
    requires
        mapping.len() <= u32::MAX,
        start < mapping.len(),
        one_to_one(mapping@),
        is_source(mapping@, start),
    ensures
        chain_end(mapping@, start, end),
        end < mapping.len(),
{
    let ghost map = mapping@;
    let ghost n = mapping.len() as nat;
    let mut cur: u32 = start;
    let ghost mut visited: Seq<u32> = seq![start];
    proof {
        lemma_partial_length(visited, n);
    }
    while mapping[cur as usize].is_some()
        invariant
            map == mapping@,
            n == mapping.len(),
            n <= u32::MAX,
            one_to_one(map),
            is_source(map, start),
            is_chain(map, visited),
            visited[0] == start,
            visited.last() == cur,
            visited.no_duplicates(),
            visited.len() <= n,
            cur < n,
        decreases n - visited.len(),
    {
        let next: usize = mapping[cur as usize].unwrap();
        proof {
            let grown = visited.push(next as u32);
            assert forall|i: int, j: int|
                0 <= i < grown.len() && 0 <= j < grown.len() && i != j implies grown[i]
                != grown[j] by {
                let last = visited.len() as int;
                if i == last || j == last {
                    let k = if i == last {
                        j
                    } else {
                        i
                    };
                    if visited[k] == next as u32 {
                        assert(visited[k] < n);
                        if k == 0 {
                            assert(map[cur as int] == Some(start as usize));
                        } else {
                            assert(visited[k - 1] < n);
                            assert(map[visited[k - 1] as int] == Some(visited[k] as usize));
                            assert(visited[k - 1] == cur);
                            assert(visited[k - 1] == visited[last - 1]);
                        }
                    }
                }
            }
            assert(is_chain(map, grown)) by {
                assert forall|j: int| 1 <= j < grown.len() implies map[grown[j - 1] as int]
                    == Some(#[trigger] grown[j] as usize) by {
                    if j < visited.len() {
                        assert(visited[j] == grown[j]);
                    }
                }
                assert forall|j: int| 0 <= j < grown.len() implies #[trigger] grown[j] < n by {
                    if j < visited.len() {
                        assert(visited[j] == grown[j]);
                    }
                }
            }
            lemma_partial_length(grown, n);
            visited = grown;
        }
        cur = next as u32;
    }
    assert(is_chain(map, visited) && visited[0] == start && visited.last() == cur);
    cur
}

/// `c` is the child of the partially mapped crossover with the segment from
/// `x1` up to `x2`: a permutation that holds the other parent's jobs in the
/// segment and elsewhere the job at which the chain of mappings from the
/// own parent's job ends.
pub open spec fn is_pmx_child(c: Seq<u32>, own: Seq<u32>, other: Seq<u32>, x1: int, x2: int) -> bool {
    &&& is_permutation(c, own.len())
    &&& forall|i: int| x1 <= i < x2 ==> #[trigger] c[i] == other[i]
    &&& forall|i: int|
        0 <= i < c.len() && !(x1 <= i < x2) ==> chain_end(
            pmx_map(own, other, x1, x2),
            own[i],
            #[trigger] c[i],
        )
}

/// The partially mapped crossover with the segment from `x1` up to `x2`.
pub fn pmx_with(p1: &Vec<u32>, p2: &Vec<u32>, x1: usize, x2: usize) -> (child: Vec<u32>)
    requires
        is_permutation(p1@, p1@.len()),
        is_permutation(p2@, p1@.len()),
        p1@.len() <= u32::MAX,
        x1 <= x2 <= p1@.len(),
    ensures
        is_pmx_child(child@, p1@, p2@, x1 as int, x2 as int),
{
    let n: usize = p1.len();
    let ghost map = pmx_map(p1@, p2@, x1 as int, x2 as int);
    let mut child: Vec<u32> = Vec::with_capacity(n);
    let mut mapping: Vec<Option<usize>> = Vec::with_capacity(n);
    let mut v: usize = 0;
    while v < n
        invariant
            v <= n,
            child.len() == v,
            mapping.len() == v,
            forall|a: int| 0 <= a < v ==> (#[trigger] mapping@[a]).is_none(),
        decreases n - v,
    {
        child.push(0);
        mapping.push(None);
        v += 1;
    }
    let mut i: usize = x1;
    while i < x2
        invariant
            x1 <= i <= x2 <= n,
            n == p1.len(),
            n == p2.len(),
            n <= u32::MAX,
            is_permutation(p1@, n as nat),
            is_permutation(p2@, n as nat),
            child.len() == n,
            mapping.len() == n,
            forall|s: int| x1 <= s < i ==> #[trigger] child@[s] == p2@[s],
            forall|a: int|
                0 <= a < n ==> #[trigger] mapping@[a] == if x1 <= place_of(p2@, a as u32) < i {
                    Some(p1@[place_of(p2@, a as u32)] as usize)
                } else {
                    None
                },
        decreases x2 - i,
    {
        let ghost before = mapping@;
        child[i] = p2[i];
        mapping[p2[i] as usize] = Some(p1[i] as usize);
        proof {
            lemma_place_of(p2@, i as int);
            assert forall|a: int| 0 <= a < n implies #[trigger] mapping@[a] == if x1 <= place_of(
                p2@,
                a as u32,
            ) < i + 1 {
                Some(p1@[place_of(p2@, a as u32)] as usize)
            } else {
                None
            } by {
                if a == p2@[i as int] {
                } else {
                    assert(mapping@[a] == before[a]);
                    lemma_permutation_covers(p2@, n as nat);
                    assert(p2@.contains(a as u32));
                    let k = place_of(p2@, a as u32);
                    assert(0 <= k < n && p2@[k] == a as u32);
                }
            }
        }
        i += 1;
    }
    assert(mapping@ =~= map);
    proof {
        lemma_permutation_covers(p2@, n as nat);
        assert(one_to_one(map)) by {
            assert forall|a: int| 0 <= a < map.len() && (#[trigger] map[a]).is_some() implies map[a].unwrap()
                < map.len() by {
                assert(p2@.contains(a as u32));
                let k = place_of(p2@, a as u32);
                assert(0 <= k < n && p2@[k] == a as u32);
                assert(p1@[k] < n);
            }
            assert forall|a: int, b: int|
                0 <= a < map.len() && 0 <= b < map.len() && (#[trigger] map[a]).is_some() && map[a]
                    == #[trigger] map[b] implies a == b by {
                assert(p2@.contains(a as u32));
                assert(p2@.contains(b as u32));
                let ka = place_of(p2@, a as u32);
                let kb = place_of(p2@, b as u32);
                assert(0 <= ka < n && p2@[ka] == a as u32);
                assert(0 <= kb < n && p2@[kb] == b as u32);
                assert(p1@[ka] == p1@[kb]);
            }
        }
    }
    let mut j: usize = 0;
    while j < n
        invariant
            j <= n,
            x1 <= x2 <= n,
            n == p1.len(),
            n == p2.len(),
            n <= u32::MAX,
            is_permutation(p1@, n as nat),
            is_permutation(p2@, n as nat),
            child.len() == n,
            mapping@ == map,
            map == pmx_map(p1@, p2@, x1 as int, x2 as int),
            one_to_one(map),
            forall|s: int| x1 <= s < x2 ==> #[trigger] child@[s] == p2@[s],
            forall|s: int|
                0 <= s < j && !(x1 <= s < x2) ==> chain_end(map, p1@[s], #[trigger] child@[s])
                    && child@[s] < n,
        decreases n - j,
    {
        if j < x1 || j >= x2 {
            proof {
                assert(is_source(map, p1@[j as int])) by {
                    assert forall|a: int| 0 <= a < map.len() implies #[trigger] map[a] != Some(
                        p1@[j as int] as usize,
                    ) by {
                        if map[a] == Some(p1@[j as int] as usize) {
                            let k = place_of(p2@, a as u32);
                            assert(x1 <= k < x2);
                            assert(p1@[k] == p1@[j as int]);
                        }
                    }
                }
            }
            let end = follow(&mapping, p1[j]);
            child[j] = end;
        }
        j += 1;
    }
    proof {
        let c = child@;
        assert forall|a: int| 0 <= a < n implies #[trigger] c[a] < n by {
            if x1 <= a < x2 {
                assert(c[a] == p2@[a]);
            }
        }
        assert forall|a: int, b: int| 0 <= a < n && 0 <= b < n && a != b implies c[a] != c[b] by {
            let ina = x1 <= a < x2;
            let inb = x1 <= b < x2;
            if ina && inb {
                assert(c[a] == p2@[a] && c[b] == p2@[b]);
            } else if ina {
                assert(c[a] == p2@[a]);
                lemma_place_of(p2@, a);
                assert(map[c[a] as int].is_some());
                assert(chain_end(map, p1@[b], c[b]));
            } else if inb {
                assert(c[b] == p2@[b]);
                lemma_place_of(p2@, b);
                assert(map[c[b] as int].is_some());
                assert(chain_end(map, p1@[a], c[a]));
            } else {
                if c[a] == c[b] {
                    assert(chain_end(map, p1@[a], c[a]));
                    assert(chain_end(map, p1@[b], c[b]));
                    let ca = choose|ch: Seq<u32>|
                        #[trigger] is_chain(map, ch) && ch[0] == p1@[a] && ch.last() == c[a]
                            && map[c[a] as int].is_none();
                    let cb = choose|ch: Seq<u32>|
                        #[trigger] is_chain(map, ch) && ch[0] == p1@[b] && ch.last() == c[b]
                            && map[c[b] as int].is_none();
                    assert(is_source(map, p1@[a])) by {
                        assert forall|x: int| 0 <= x < map.len() implies #[trigger] map[x]
                            != Some(p1@[a] as usize) by {
                            if map[x] == Some(p1@[a] as usize) {
                                let k = place_of(p2@, x as u32);
                                assert(p1@[k] == p1@[a]);
                            }
                        }
                    }
                    assert(is_source(map, p1@[b])) by {
                        assert forall|x: int| 0 <= x < map.len() implies #[trigger] map[x]
                            != Some(p1@[b] as usize) by {
                            if map[x] == Some(p1@[b] as usize) {
                                let k = place_of(p2@, x as u32);
                                assert(p1@[k] == p1@[b]);
                            }
                        }
                    }
                    lemma_chain_unique(map, ca, cb);
                    assert(p1@[a] == p1@[b]);
                }
            }
        }
    }
    child
}

/// The partially mapped crossover with a segment between two random cuts.
pub fn pmx(p1: &Vec<u32>, p2: &Vec<u32>, rng: &mut StdRng) -> (child: Vec<u32>)
    requires
        is_permutation(p1@, p1@.len()),
        is_permutation(p2@, p1@.len()),
        2 <= p1@.len() <= u32::MAX,
    ensures
        exists|x1: int, x2: int|
            0 <= x1 <= x2 < p1@.len() && #[trigger] is_pmx_child(child@, p1@, p2@, x1, x2),
{
    let n_jobs: usize = p1.len();
    let x1 = draw_in(rng, 0, n_jobs - 1);
    let x2 = draw_in(rng, x1, n_jobs);
    let child = pmx_with(p1, p2, x1, x2);
    assert(is_pmx_child(child@, p1@, p2@, x1 as int, x2 as int));
    child
}

/// `c1` and `c2` are children of the partially mapped crossover of `p1` and
/// `p2`, each with a segment of its own.
pub open spec fn is_pmx_pair(p1: Seq<u32>, p2: Seq<u32>, c1: Seq<u32>, c2: Seq<u32>) -> bool {
    &&& exists|x1: int, x2: int|
        0 <= x1 <= x2 < p1.len() && #[trigger] is_pmx_child(c1, p1, p2, x1, x2)
    &&& exists|x1: int, x2: int|
        0 <= x1 <= x2 < p1.len() && #[trigger] is_pmx_child(c2, p2, p1, x1, x2)
}

impl Crossover for PMX {
    /// There are at least two jobs; no `k` is looked at.
    open spec fn accepts(k: Option<usize>, jobs: nat) -> bool {
        jobs >= 2
    }

    /// Partially mapped crossover: each child takes a segment of the other
    /// parent and maps the jobs of its own parent outside the segment so
    /// that no job occurs twice.
    fn apply(
        p1: &Chromosome,
        p2: &Chromosome,
        _k: Option<usize>,
        _makespan: &mut Makespan,
        rng: &mut StdRng,
    ) -> (r: (Chromosome, Chromosome))
        ensures
            is_pmx_pair(p1.jobs@, p2.jobs@, r.0.jobs@, r.1.jobs@),
            r.0.updated && r.0.makespan.is_none(),
            r.1.updated && r.1.makespan.is_none(),
            *final(_makespan) == *old(_makespan),
    {
        let c1 = pmx(&p1.jobs, &p2.jobs, rng);
        let c2 = pmx(&p2.jobs, &p1.jobs, rng);
        (
            Chromosome { jobs: c1, makespan: None, updated: true },
            Chromosome { jobs: c2, makespan: None, updated: true },
        )
    }
}

} // verus!
