use vstd::prelude::*;

verus! {

/// Number of data bytes a single fragment can hold.
pub const FRAGMENT_DSIZE: usize = 128;

/// One fixed-capacity slice of a larger byte buffer.
///
/// Only the first `length` bytes of `data` carry meaning; the rest are zero
/// when the fragment was produced by splitting.
#[derive(Clone, Copy, Debug, PartialEq, Eq)]
pub struct Fragment {
    pub fragment_index: u64,
    pub total_n_fragments: u64,
    pub length: u8,
    pub data: [u8; FRAGMENT_DSIZE],
}

impl Fragment {
    /// The valid-byte count does not exceed the capacity.
    pub open spec fn wf(&self) -> bool {
        self.length as int <= FRAGMENT_DSIZE as int
    }

    /// The meaningful bytes of this fragment.
    pub open spec fn payload(&self) -> Seq<u8> {
        self.data@.subrange(0, self.length as int)
    }
}

/// Number of fragments a buffer of `n` bytes is split into: one per started
/// block of capacity, and a single empty fragment for an empty buffer.
pub open spec fn fragment_count(n: int) -> int {
    if n <= 0 {
        1
    } else {
        (n + FRAGMENT_DSIZE as int - 1) / FRAGMENT_DSIZE as int
    }
}

/// Valid-byte count of fragment `i` when a buffer of `n` bytes is split.
pub open spec fn chunk_len(n: int, i: int) -> int {
    if n - i * FRAGMENT_DSIZE as int <= FRAGMENT_DSIZE as int {
        n - i * FRAGMENT_DSIZE as int
    } else {
        FRAGMENT_DSIZE as int
    }
}

/// `frags` is the fragment sequence of `bytes`: consecutive chunks in order,
/// each fragment numbered by its position, all agreeing on the total, with
/// the bytes past the valid length zeroed.
pub open spec fn is_split_of(frags: Seq<Fragment>, bytes: Seq<u8>) -> bool {
    &&& frags.len() == fragment_count(bytes.len() as int)
    &&& forall|i: int|
        0 <= i < frags.len() ==> {
            let f = #[trigger] frags[i];
            &&& f.fragment_index == i
            &&& f.total_n_fragments == frags.len()
            &&& f.length == chunk_len(bytes.len() as int, i)
            &&& f.payload() == bytes.subrange(
                i * FRAGMENT_DSIZE as int,
                i * FRAGMENT_DSIZE as int + f.length,
            )
            &&& forall|k: int| f.length <= k < FRAGMENT_DSIZE ==> f.data@[k] == 0
        }
}

/// Fragment `i` of a split starts inside the buffer, is full unless it is
/// the last one, and the last one ends exactly at the buffer's end.
pub proof fn lemma_chunk_bounds(n: int, i: int)
    requires
        0 <= n,
        0 <= i < fragment_count(n),
    ensures
        i * FRAGMENT_DSIZE as int <= n,
        n > 0 ==> (i * FRAGMENT_DSIZE as int) < n,
        0 <= chunk_len(n, i),
        chunk_len(n, i) <= FRAGMENT_DSIZE as int,
        i < fragment_count(n) - 1 ==> chunk_len(n, i) == FRAGMENT_DSIZE,
        i == fragment_count(n) - 1 ==> i * FRAGMENT_DSIZE as int + chunk_len(n, i) == n,
{
    let c = FRAGMENT_DSIZE as int;
    if n > 0 {
        assert(i * c < n && (i + 1 < (n + c - 1) / c ==> (i + 1) * c < n) && (i + 1 == (n + c
            - 1) / c ==> n <= (i + 1) * c)) by (nonlinear_arith)
            requires
                c == 128,
                0 <= i < (n + c - 1) / c,
                n > 0,
        ;
    }
}

/// Structural violations found while joining fragments.
#[derive(Clone, Copy, Debug, PartialEq, Eq, Structural)]
pub enum ReassembleError {
    /// No fragment was given.
    EmptyFragmentSet,
    /// Two fragments carry the same index.
    DuplicateIndex,
    /// Some index below the number of fragments is absent.
    MissingFragment,
}

/// Two distinct positions of `fs` carry the same fragment index.
pub open spec fn has_duplicate_index(fs: Seq<Fragment>) -> bool {
    exists|i: int, j: int|
        0 <= i < fs.len() && 0 <= j < fs.len() && i != j && #[trigger] fs[i].fragment_index
            == #[trigger] fs[j].fragment_index
}

/// Some fragment of `fs` carries index `k`.
pub open spec fn has_index(fs: Seq<Fragment>, k: int) -> bool {
    exists|i: int| 0 <= i < fs.len() && #[trigger] fs[i].fragment_index == k
}

/// Every index `0..fs.len()` is carried by some fragment.
pub open spec fn indices_complete(fs: Seq<Fragment>) -> bool {
    forall|k: int| 0 <= k < fs.len() ==> #[trigger] has_index(fs, k)
}

/// The fragment of `fs` that carries index `k`.
pub open spec fn fragment_at(fs: Seq<Fragment>, k: int) -> Fragment {
    choose|f: Fragment| fs.contains(f) && f.fragment_index == k
}

/// Length of the buffer joined from `fs`: every fragment but the last in
/// index order counts as full.
pub open spec fn joined_len(fs: Seq<Fragment>) -> int {
    (fs.len() - 1) * FRAGMENT_DSIZE as int + fragment_at(fs, fs.len() - 1).length
}

/// Byte `p` of the joined buffer: taken from the fragment whose block holds
/// `p`, or zero past that fragment's valid bytes.
pub open spec fn joined_byte(fs: Seq<Fragment>, p: int) -> u8 {
    let f = fragment_at(fs, p / FRAGMENT_DSIZE as int);
    let o = p % FRAGMENT_DSIZE as int;
    if o < f.length {
        f.data@[o]
    } else {
        0
    }
}

/// The buffer joined from a complete, duplicate-free fragment set.
pub open spec fn joined(fs: Seq<Fragment>) -> Seq<u8> {
    Seq::new(joined_len(fs) as nat, |p: int| joined_byte(fs, p))
}

/// Outcome of joining `fs`, errors checked in this order: empty input,
/// duplicate indices, missing indices.
pub open spec fn join_result(fs: Seq<Fragment>) -> Result<Seq<u8>, ReassembleError> {
    if fs.len() == 0 {
        Err(ReassembleError::EmptyFragmentSet)
    } else if has_duplicate_index(fs) {
        Err(ReassembleError::DuplicateIndex)
    } else if !indices_complete(fs) {
        Err(ReassembleError::MissingFragment)
    } else {
        Ok(joined(fs))
    }
}

/// In a duplicate-free sequence the fragment carrying an index is the one at
/// the position where that index occurs.
pub proof fn lemma_fragment_at(fs: Seq<Fragment>, j: int)
    requires
        !has_duplicate_index(fs),
        0 <= j < fs.len(),
    ensures
        fragment_at(fs, fs[j].fragment_index as int) == fs[j],
{
    let k = fs[j].fragment_index as int;
    assert(fs.contains(fs[j]) && fs[j].fragment_index == k);
    let f = fragment_at(fs, k);
    let i = choose|i: int| 0 <= i < fs.len() && fs[i] == f;
    assert(fs[i].fragment_index == fs[j].fragment_index);
}

/// Splitting yields fragments numbered `0..n` in order, all carrying the
/// same, correct total, with every fragment but the last one full.
pub proof fn lemma_split_invariants(fs: Seq<Fragment>, b: Seq<u8>)
    requires
        is_split_of(fs, b),
    ensures
        fs.len() == fragment_count(b.len() as int),
        forall|i: int| 0 <= i < fs.len() ==> #[trigger] fs[i].fragment_index == i,
        forall|i: int| 0 <= i < fs.len() ==> #[trigger] fs[i].total_n_fragments == fs.len(),
        forall|i: int| 0 <= i < fs.len() - 1 ==> #[trigger] fs[i].length == FRAGMENT_DSIZE,
        fs[fs.len() - 1].length as int <= FRAGMENT_DSIZE as int,
{
    assert forall|i: int| 0 <= i < fs.len() - 1 implies #[trigger] fs[i].length
        == FRAGMENT_DSIZE by {
        lemma_chunk_bounds(b.len() as int, i);
    }
    lemma_chunk_bounds(b.len() as int, fs.len() - 1);
}

/// A buffer of exactly one capacity fills a single fragment; one byte more
/// spills that byte into a second fragment.
pub proof fn lemma_split_boundary(fs: Seq<Fragment>, b: Seq<u8>)
    requires
        is_split_of(fs, b),
    ensures
        b.len() == FRAGMENT_DSIZE ==> fs.len() == 1 && fs[0].length == FRAGMENT_DSIZE,
        b.len() == FRAGMENT_DSIZE + 1 ==> fs.len() == 2 && fs[0].length == FRAGMENT_DSIZE
            && fs[1].length == 1,
{
}

/// Joining the fragments that splitting produced gives the buffer back.
pub proof fn lemma_join_split(fs: Seq<Fragment>, b: Seq<u8>)
    requires
        is_split_of(fs, b),
    ensures
        join_result(fs) == Ok::<Seq<u8>, ReassembleError>(b),
{
    let n = fs.len() as int;
    let c = FRAGMENT_DSIZE as int;
    assert(fs[0].fragment_index == 0);
    assert(!has_duplicate_index(fs));
    assert forall|k: int| 0 <= k < n implies #[trigger] has_index(fs, k) by {
        assert(fs[k].fragment_index == k);
    }
    assert forall|k: int| 0 <= k < n implies #[trigger] fragment_at(fs, k) == fs[k] by {
        lemma_fragment_at(fs, k);
    }
    lemma_chunk_bounds(b.len() as int, n - 1);
    assert(fragment_at(fs, n - 1) == fs[n - 1]);
    assert(joined_len(fs) == b.len());
    assert forall|p: int| 0 <= p < b.len() implies joined_byte(fs, p) == b[p] by {
        let k = p / c;
        let o = p % c;
        assert(p == k * c + o && 0 <= o < c) by (nonlinear_arith)
            requires
                c == 128,
                k == p / c,
                o == p % c,
                p >= 0,
        ;
        assert(k < n) by (nonlinear_arith)
            requires
                p == k * c + o,
                0 <= o,
                p < b.len(),
                b.len() == (n - 1) * c + chunk_len(b.len() as int, n - 1),
                chunk_len(b.len() as int, n - 1) <= c,
                c == 128,
        ;
        assert(0 <= k);
        lemma_chunk_bounds(b.len() as int, k);
        assert(fragment_at(fs, k) == fs[k]);
        assert(o < fs[k].length);
        assert(fs[k].payload()[o] == b[k * c + o]);
    }
    assert(joined(fs) =~= b);
}

/// Joining nothing is refused as an empty set; two fragments that share an
/// index are refused as duplicates.
pub proof fn lemma_join_rejects(fs: Seq<Fragment>, i: int, j: int)
    ensures
        fs.len() == 0 ==> join_result(fs) == Err::<Seq<u8>, ReassembleError>(
            ReassembleError::EmptyFragmentSet,
        ),
        0 <= i < fs.len() && 0 <= j < fs.len() && i != j && fs[i].fragment_index
            == fs[j].fragment_index ==> join_result(fs) == Err::<Seq<u8>, ReassembleError>(
            ReassembleError::DuplicateIndex,
        ),
{
}

/// Two positions holding the same value make its count at least two, and
/// the converse.
proof fn lemma_count_two<A>(s: Seq<A>, x: A)
    ensures
        s.to_multiset().count(x) >= 2 <==> exists|i: int, j: int|
            0 <= i < s.len() && 0 <= j < s.len() && i != j && s[i] == x && s[j] == x,
{
    broadcast use vstd::seq_lib::group_to_multiset_ensures, vstd::multiset::group_multiset_axioms;

    vstd::seq_lib::to_multiset_contains(s, x);
    if s.to_multiset().count(x) >= 2 {
        assert(s.contains(x));
        let i = choose|i: int| 0 <= i < s.len() && s[i] == x;
        let r = s.remove(i);
        vstd::seq_lib::to_multiset_remove(s, i);
        assert(r.to_multiset().count(x) >= 1);
        vstd::seq_lib::to_multiset_contains(r, x);
        assert(r.contains(x));
        let jr = choose|j: int| 0 <= j < r.len() && r[j] == x;
        let j = if jr < i {
            jr
        } else {
            jr + 1
        };
        assert(s[j] == x && i != j);
    }
    if exists|i: int, j: int|
        0 <= i < s.len() && 0 <= j < s.len() && i != j && s[i] == x && s[j] == x {
        let (i, j) = choose|i: int, j: int|
            0 <= i < s.len() && 0 <= j < s.len() && i != j && s[i] == x && s[j] == x;
        let r = s.remove(i);
        vstd::seq_lib::to_multiset_remove(s, i);
        let jr = if j < i {
            j
        } else {
            j - 1
        };
        assert(r[jr] == x);
        assert(r.contains(x));
        vstd::seq_lib::to_multiset_contains(r, x);
    }
}

/// A fragment of one ordering is a fragment of any other.
proof fn lemma_contains_transfer(f1: Seq<Fragment>, f2: Seq<Fragment>, x: Fragment)
    requires
        f1.to_multiset() == f2.to_multiset(),
        f1.contains(x),
    ensures
        f2.contains(x),
{
    vstd::seq_lib::to_multiset_contains(f1, x);
    vstd::seq_lib::to_multiset_contains(f2, x);
}

/// Duplicate indices survive any reordering.
proof fn lemma_duplicate_transfer(f1: Seq<Fragment>, f2: Seq<Fragment>)
    requires
        f1.to_multiset() == f2.to_multiset(),
        has_duplicate_index(f1),
    ensures
        has_duplicate_index(f2),
{
    broadcast use vstd::seq_lib::group_to_multiset_ensures, vstd::multiset::group_multiset_axioms;

    let (i, j) = choose|i: int, j: int|
        0 <= i < f1.len() && 0 <= j < f1.len() && i != j && #[trigger] f1[i].fragment_index
            == #[trigger] f1[j].fragment_index;
    if f1[i] == f1[j] {
        lemma_count_two(f1, f1[i]);
        lemma_count_two(f2, f1[i]);
        let (a, b) = choose|a: int, b: int|
            0 <= a < f2.len() && 0 <= b < f2.len() && a != b && f2[a] == f1[i] && f2[b] == f1[i];
        assert(f2[a].fragment_index == f2[b].fragment_index);
    } else {
        assert(f1.contains(f1[i]) && f1.contains(f1[j]));
        lemma_contains_transfer(f1, f2, f1[i]);
        lemma_contains_transfer(f1, f2, f1[j]);
        let a = choose|a: int| 0 <= a < f2.len() && f2[a] == f1[i];
        let b = choose|b: int| 0 <= b < f2.len() && f2[b] == f1[j];
        assert(f2[a].fragment_index == f2[b].fragment_index);
    }
}

/// An index present in one ordering is present in any other.
proof fn lemma_index_transfer(f1: Seq<Fragment>, f2: Seq<Fragment>, k: int)
    requires
        f1.to_multiset() == f2.to_multiset(),
        has_index(f1, k),
    ensures
        has_index(f2, k),
{
    broadcast use vstd::seq_lib::group_to_multiset_ensures, vstd::multiset::group_multiset_axioms;

    let i = choose|i: int| 0 <= i < f1.len() && #[trigger] f1[i].fragment_index == k;
    assert(f1.contains(f1[i]));
    lemma_contains_transfer(f1, f2, f1[i]);
    let a = choose|a: int| 0 <= a < f2.len() && f2[a] == f1[i];
    assert(f2[a].fragment_index == k);
}

/// In a complete, duplicate-free set the fragment carrying an index is the
/// same whatever the order.
proof fn lemma_fragment_at_transfer(f1: Seq<Fragment>, f2: Seq<Fragment>, k: int)
    requires
        f1.to_multiset() == f2.to_multiset(),
        !has_duplicate_index(f2),
        has_index(f1, k),
    ensures
        fragment_at(f1, k) == fragment_at(f2, k),
{
    broadcast use vstd::seq_lib::group_to_multiset_ensures, vstd::multiset::group_multiset_axioms;

    let i = choose|i: int| 0 <= i < f1.len() && #[trigger] f1[i].fragment_index == k;
    assert(f1.contains(f1[i]));
    let g1 = fragment_at(f1, k);
    assert(f1.contains(g1));
    lemma_contains_transfer(f1, f2, g1);
    let a = choose|a: int| 0 <= a < f2.len() && f2[a] == g1;
    lemma_fragment_at(f2, a);
}

/// Joining depends only on which fragments are given, not on their order.
pub proof fn lemma_join_order_independent(f1: Seq<Fragment>, f2: Seq<Fragment>)
    requires
        f1.to_multiset() == f2.to_multiset(),
        forall|i: int| 0 <= i < f1.len() ==> (#[trigger] f1[i]).wf(),
    ensures
        join_result(f1) == join_result(f2),
{
    broadcast use vstd::seq_lib::group_to_multiset_ensures, vstd::multiset::group_multiset_axioms;

    vstd::seq_lib::to_multiset_len(f1);
    vstd::seq_lib::to_multiset_len(f2);
    assert(f1.len() == f2.len());
    if has_duplicate_index(f1) {
        lemma_duplicate_transfer(f1, f2);
    } else if has_duplicate_index(f2) {
        lemma_duplicate_transfer(f2, f1);
    } else {
        if indices_complete(f1) {
            assert forall|k: int| 0 <= k < f2.len() implies #[trigger] has_index(f2, k) by {
                lemma_index_transfer(f1, f2, k);
            }
        }
        if indices_complete(f2) {
            assert forall|k: int| 0 <= k < f1.len() implies #[trigger] has_index(f1, k) by {
                lemma_index_transfer(f2, f1, k);
            }
        }
        if f1.len() > 0 && indices_complete(f1) {
            let n = f1.len() as int;
            assert(has_index(f1, n - 1));
            lemma_fragment_at_transfer(f1, f2, n - 1);
            let w = choose|i: int| 0 <= i < f1.len() && #[trigger] f1[i].fragment_index == n - 1;
            assert(f1.contains(f1[w]));
            let last = fragment_at(f1, n - 1);
            assert(f1.contains(last));
            assert(last.wf());
            assert forall|p: int| 0 <= p < joined_len(f1) implies joined_byte(f1, p)
                == joined_byte(f2, p) by {
                let k = p / FRAGMENT_DSIZE as int;
                assert(0 <= k < n) by (nonlinear_arith)
                    requires
                        k == p / 128,
                        0 <= p < (n - 1) * 128 + last.length,
                        last.length <= 128,
                        n >= 1,
                ;
                assert(has_index(f1, k));
                lemma_fragment_at_transfer(f1, f2, k);
            }
            assert(joined(f1) =~= joined(f2));
        }
    }
}

} // verus!
