use vstd::prelude::*;

use std::collections::HashSet;

use crate::fragment::{
    chunk_len, fragment_count, has_duplicate_index, has_index, indices_complete, join_result,
    joined, joined_byte, joined_len, lemma_chunk_bounds, lemma_fragment_at, Fragment,
    ReassembleError, FRAGMENT_DSIZE,
};
use crate::Assembler;

verus! {

broadcast use vstd::std_specs::hash::group_hash_axioms;

/// Splits buffers into consecutive full fragments and joins fragments by
/// placing each at the offset its index gives.
pub struct NaiveAssembler {}

impl Assembler for NaiveAssembler {
    fn reassemble(fragments: &[Fragment]) -> (r: Result<Vec<u8>, ReassembleError>) {
        let n = fragments.len();
        if n == 0 {
            return Err(ReassembleError::EmptyFragmentSet);
        }
        // Make sure that fragment indices are unique.
        let mut existing: HashSet<u64> = HashSet::new();
        let mut i: usize = 0;
        while i < n
            invariant
                n == fragments@.len(),
                i <= n,
                forall|k: u64|
                    existing@.contains(k) <==> exists|j: int|
                        0 <= j < i && #[trigger] fragments@[j].fragment_index == k,
                forall|a: int, b: int|
                    0 <= a < i && 0 <= b < i && a != b ==> #[trigger] fragments@[a].fragment_index
                        != #[trigger] fragments@[b].fragment_index,
            decreases n - i,
        {
            let idx = fragments[i].fragment_index;
            if !existing.insert(idx) {
                let ghost j = choose|j: int|
                    0 <= j < i && #[trigger] fragments@[j].fragment_index == idx;
                assert(fragments@[j].fragment_index == fragments@[i as int].fragment_index);
                return Err(ReassembleError::DuplicateIndex);
            }
            i = i + 1;
        }
        assert(!has_duplicate_index(fragments@));
        // Locate the fragment carrying each index below `n`; indices at or
        // above `n` leave some index below it uncovered.
        let mut present: Vec<bool> = Vec::new();
        let mut pos: Vec<usize> = Vec::new();
        let mut k: usize = 0;
        while k < n
            invariant
                k <= n,
                present@.len() == k,
                pos@.len() == k,
                forall|m: int| 0 <= m < k ==> !present@[m] && pos@[m] == 0,
            decreases n - k,
        {
            present.push(false);
            pos.push(0);
            k = k + 1;
        }
        let mut i: usize = 0;
        while i < n
            invariant
                n == fragments@.len(),
                i <= n,
                present@.len() == n,
                pos@.len() == n,
                !has_duplicate_index(fragments@),
                forall|m: int|
                    0 <= m < n ==> #[trigger] present@[m] ==> pos@[m] < i
                        && fragments@[pos@[m] as int].fragment_index == m,
                forall|m: int|
                    0 <= m < n ==> !#[trigger] present@[m] ==> forall|j: int|
                        0 <= j < i ==> fragments@[j].fragment_index != m,
            decreases n - i,
        {
            let idx = fragments[i].fragment_index;
            if idx < n as u64 {
                present.set(idx as usize, true);
                pos.set(idx as usize, i);
            }
            i = i + 1;
        }
        let mut k: usize = 0;
        while k < n
            invariant
                n == fragments@.len(),
                k <= n,
                present@.len() == n,
                forall|m: int|
                    0 <= m < n ==> !#[trigger] present@[m] ==> forall|j: int|
                        0 <= j < n ==> fragments@[j].fragment_index != m,
                forall|m: int| 0 <= m < k ==> #[trigger] present@[m],
                pos@.len() == n,
                !has_duplicate_index(fragments@),
                forall|m: int|
                    0 <= m < n ==> #[trigger] present@[m] ==> pos@[m] < n
                        && fragments@[pos@[m] as int].fragment_index == m,
            decreases n - k,
        {
            if !present[k] {
                assert(!has_index(fragments@, k as int));
                assert(!indices_complete(fragments@));
                return Err(ReassembleError::MissingFragment);
            }
            k = k + 1;
        }
        assert forall|m: int| 0 <= m < n implies #[trigger] pos@[m] < n
            && fragments@[pos@[m] as int].fragment_index == m by {
            assert(present@[m]);
        }
        assert(indices_complete(fragments@)) by {
            assert forall|m: int| 0 <= m < n implies #[trigger] has_index(fragments@, m) by {
                assert(fragments@[pos@[m] as int].fragment_index == m);
            }
        }
        // Every position of the output is taken from the fragment whose
        // block holds it.
        assert(present@[n - 1]);
        let last = &fragments[pos[n - 1]];
        proof {
            lemma_fragment_at(fragments@, pos@[n - 1] as int);
        }
        let total = (n - 1) * FRAGMENT_DSIZE + last.length as usize;
        assert(total <= n * FRAGMENT_DSIZE) by (nonlinear_arith)
            requires
                total == (n - 1) * 128 + last.length,
                last.length <= 128,
                n >= 1,
        ;
        let mut out: Vec<u8> = Vec::new();
        let mut p: usize = 0;
        while p < total
            invariant
                n == fragments@.len(),
                total == joined_len(fragments@),
                !has_duplicate_index(fragments@),
                pos@.len() == n,
                forall|m: int|
                    0 <= m < n ==> #[trigger] pos@[m] < n
                        && fragments@[pos@[m] as int].fragment_index == m,
                p <= total,
                total <= n * FRAGMENT_DSIZE,
                out@.len() == p,
                forall|q: int| 0 <= q < p ==> out@[q] == joined_byte(fragments@, q),
            decreases total - p,
        {
            let block = p / FRAGMENT_DSIZE;
            let o = p % FRAGMENT_DSIZE;
            assert(block < n) by (nonlinear_arith)
                requires
                    p < total,
                    total <= n * 128,
                    block == p / 128,
            ;
            let f = &fragments[pos[block]];
            proof {
                lemma_fragment_at(fragments@, pos@[block as int] as int);
            }
            if o < f.length as usize {
                out.push(f.data[o]);
            } else {
                out.push(0);
            }
            p = p + 1;
        }
        assert(out@ =~= joined(fragments@));
        Ok(out)
    }

    fn disassemble(byte_vector: &[u8]) -> (r: Vec<Fragment>) {
        let n = byte_vector.len();
        let count: usize = if n == 0 {
            1
        } else {
            (n - 1) / FRAGMENT_DSIZE + 1
        };
        assert(count == fragment_count(n as int)) by (nonlinear_arith)
            requires
                n == 0 ==> count == 1,
                n > 0 ==> count == (n - 1) / 128 + 1,
        ;
        let mut out: Vec<Fragment> = Vec::new();
        let mut i: usize = 0;
        while i < count
            invariant
                n == byte_vector@.len(),
                count == fragment_count(n as int),
                i <= count,
                out@.len() == i,
                forall|j: int|
                    0 <= j < i ==> {
                        let f = #[trigger] out@[j];
                        &&& f.wf()
                        &&& f.fragment_index == j
                        &&& f.total_n_fragments == count
                        &&& f.length == chunk_len(n as int, j)
                        &&& f.payload() == byte_vector@.subrange(
                            j * FRAGMENT_DSIZE as int,
                            j * FRAGMENT_DSIZE as int + f.length,
                        )
                        &&& forall|k: int| f.length <= k < FRAGMENT_DSIZE ==> f.data@[k] == 0
                    },
            decreases count - i,
        {
            proof {
                lemma_chunk_bounds(n as int, i as int);
            }
            let start = i * FRAGMENT_DSIZE;
            let len: usize = if n - start <= FRAGMENT_DSIZE {
                n - start
            } else {
                FRAGMENT_DSIZE
            };
            let mut data = [0u8; FRAGMENT_DSIZE];
            let mut k: usize = 0;
            while k < len
                invariant
                    len <= FRAGMENT_DSIZE,
                    n == byte_vector@.len(),
                    start + len <= n,
                    k <= len,
                    forall|m: int| 0 <= m < k ==> data@[m] == byte_vector@[start + m],
                    forall|m: int| len <= m < FRAGMENT_DSIZE ==> data@[m] == 0,
                decreases len - k,
            {
                data[k] = byte_vector[start + k];
                k = k + 1;
            }
            let f = Fragment {
                fragment_index: i as u64,
                total_n_fragments: count as u64,
                length: len as u8,
                data,
            };
            assert(f.payload() =~= byte_vector@.subrange(start as int, start + len));
            out.push(f);
            i = i + 1;
        }
        out
    }
}

} // verus!
