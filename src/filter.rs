use vstd::prelude::*;

use vstd::slice::{slice_subrange, slice_to_vec};

use crate::error::DmglrError;
use crate::ompi::{all_in_range, mangle_spec, thread_count, CORE_NUMBER};
use crate::smt::SMT;

verus! {

/// Rank of a hardware thread within its physical core.
#[derive(Copy, Clone, PartialEq, Eq, Structural, Debug)]
pub enum Thread {
    First,
    Second,
    Third,
    Fourth,
}

/// Half of the table that belongs to one socket.
#[derive(Copy, Clone, PartialEq, Eq, Structural, Debug)]
pub enum Socket {
    N0,
    N1,
}

/// Parity of the OpenMPI-order index.
#[derive(Copy, Clone, PartialEq, Eq, Structural, Debug)]
pub enum CoreParity {
    Odd,
    Even,
}

impl Thread {
    /// Zero-based position of the rank within a core.
    pub open spec fn index_spec(self) -> nat {
        match self {
            Thread::First => 0,
            Thread::Second => 1,
            Thread::Third => 2,
            Thread::Fourth => 3,
        }
    }

    /// A rank is coherent with an SMT level when a core at that level has it.
    pub open spec fn coherent_spec(self, smt: SMT) -> bool {
        self.index_spec() < smt.width_spec()
    }

    pub fn coherent(&self, smt: &SMT) -> (r: bool)
        ensures
            r == self.coherent_spec(*smt),
    {
        match self {
            Thread::First => true,
            Thread::Second => true,
            Thread::Third => *smt == SMT::L4,
            Thread::Fourth => *smt == SMT::L4,
        }
    }

    pub fn index(&self) -> (r: usize)
        ensures
            r == self.index_spec(),
    {
        match self {
            Thread::First => 0,
            Thread::Second => 1,
            Thread::Third => 2,
            Thread::Fourth => 3,
        }
    }
}

impl CoreParity {
    pub open spec fn accepts(self, v: u32) -> bool {
        match self {
            CoreParity::Odd => v % 2 == 1,
            CoreParity::Even => v % 2 == 0,
        }
    }
}

/// Value in the first slot of chunk `i` of the table: chunks of the first
/// socket start at `i`, those of the second at `32 * width` onwards.
pub open spec fn chunk_base(smt: SMT, i: nat) -> nat {
    if i < 32 {
        i
    } else {
        32 * smt.width_spec() + (i - 32) as nat
    }
}

/// Entry `p` of the full table: chunk `p / width`, slot `p % width`.
pub open spec fn table_entry(smt: SMT, p: nat) -> nat {
    chunk_base(smt, p / smt.width_spec()) + 32 * (p % smt.width_spec())
}

/// The full table of OpenMPI-order indices for an SMT level.
pub open spec fn table_spec(smt: SMT) -> Seq<u32> {
    Seq::new(thread_count(smt), |p: int| table_entry(smt, p as nat) as u32)
}

/// What remains of a table after the socket filter.
pub open spec fn socket_spec(t: Seq<u32>, sck: Option<Socket>, extra: nat) -> Seq<u32> {
    match sck {
        None => t,
        Some(Socket::N0) => t.take(extra as int),
        Some(Socket::N1) => t.skip(extra as int),
    }
}

/// The element at position `k` of each consecutive chunk of `w` elements of
/// `t`, or `None` when some chunk has no such element.
pub open spec fn pick_rank(t: Seq<u32>, w: nat, k: nat) -> Option<Seq<u32>>
    decreases t.len(),
    when w > 0
{
    if t.len() == 0 {
        Some(Seq::empty())
    } else if k >= t.len() {
        None
    } else {
        let rest = if w < t.len() {
            t.skip(w as int)
        } else {
            Seq::empty()
        };
        match pick_rank(rest, w, k) {
            Some(s) => Some(seq![t[k as int]] + s),
            None => None,
        }
    }
}

/// Whether a value has the given parity, as a predicate.
pub open spec fn parity_pred(par: CoreParity) -> spec_fn(u32) -> bool {
    |v: u32| par.accepts(v)
}

/// What remains of a table after the parity filter.
pub open spec fn parity_spec(t: Seq<u32>, p: Option<CoreParity>) -> Seq<u32> {
    match p {
        None => t,
        Some(par) => t.filter(parity_pred(par)),
    }
}

/// Builds the full table: `width`-wide chunks whose slots step by
/// `CORE_NUMBER` from a per-chunk start that grows by one, the start
/// jumping to `CORE_NUMBER * width` where the second socket begins.
pub fn generate_table(smt: &SMT) -> (r: Vec<u32>)
    ensures
        r@ == table_spec(*smt),
        r@.len() == smt.width_spec() * 64,
{
    let smt_val = smt.width();
    let extra_val = smt.get_extra_threads();
    let mut table: Vec<u32> = Vec::new();

    let mut start_val: u32 = 0;
    let mut i: u32 = 0;
    while i < 2 * CORE_NUMBER
        invariant
            smt_val == smt.width_spec(),
            extra_val == 32 * smt_val,
            i <= 64,
            table@.len() == i * smt_val,
            forall|p: int| 0 <= p < table@.len() ==> table@[p] == table_entry(*smt, p as nat),
            start_val == if i <= 32 { i as nat } else { chunk_base(*smt, i as nat) },
        decreases 64 - i,
    {
        let mut curr_val: u32 = start_val;
        let mut j: u32 = 0;
        while j < smt_val
            invariant
                smt_val == smt.width_spec(),
                extra_val == 32 * smt_val,
                i < 64,
                j <= smt_val,
                table@.len() == i * smt_val + j,
                forall|p: int| 0 <= p < table@.len() ==> table@[p] == table_entry(*smt, p as nat),
                j == 0 ==> curr_val == start_val,
                j == 0 ==> start_val == if i <= 32 { i as nat } else { chunk_base(*smt, i as nat) },
                j > 0 ==> curr_val == chunk_base(*smt, i as nat) + 32 * j,
                j > 0 && i >= 32 ==> start_val == chunk_base(*smt, i as nat),
                j > 0 && i < 32 ==> start_val == i,
            decreases smt_val - j,
        {
            let ghost p = table@.len();
            assert(i * smt_val + j == extra_val <==> (i == 32 && j == 0)) by (nonlinear_arith)
                requires
                    smt_val == 2 || smt_val == 4,
                    j < smt_val,
                    extra_val == 32 * smt_val,
            ;
            assert(i * smt_val <= 63 * smt_val) by (nonlinear_arith)
                requires
                    i < 64,
            ;
            if i * smt_val + j == extra_val {
                start_val = CORE_NUMBER * smt_val;
                curr_val = start_val;
            }
            proof {
                vstd::arithmetic::div_mod::lemma_fundamental_div_mod_converse(
                    p as int,
                    smt_val as int,
                    i as int,
                    j as int,
                );
            }
            table.push(curr_val);
            curr_val = curr_val + CORE_NUMBER;
            j = j + 1;
        }
        start_val = start_val + 1;
        i = i + 1;
        assert(table@.len() == i * smt_val) by (nonlinear_arith)
            requires
                table@.len() == (i - 1) * smt_val + smt_val,
        ;
    }
    table
}

/// Keeps the element at position `index` of each consecutive chunk of
/// `width` elements; fails when some chunk is too short to have one.
pub fn select_rank(table: &Vec<u32>, width: usize, index: usize) -> (r: Result<
    Vec<u32>,
    DmglrError,
>)
    requires
        width > 0,
    ensures
        r is Ok <==> pick_rank(table@, width as nat, index as nat) is Some,
        r is Ok ==> pick_rank(table@, width as nat, index as nat) == Some(r->Ok_0@),
        r is Err ==> r->Err_0 == DmglrError::FilterIndexError(index),
{
    let len = table.len();
    let mut out: Vec<u32> = Vec::new();
    let mut start: usize = 0;
    proof {
        assert(table@.skip(0) =~= table@);
        match pick_rank(table@, width as nat, index as nat) {
            Some(t) => {
                assert(out@ + t =~= t);
            },
            None => {},
        }
    }
    while start < len
        invariant
            width > 0,
            len == table@.len(),
            start <= len,
            pick_rank(table@, width as nat, index as nat) == match pick_rank(
                table@.skip(start as int),
                width as nat,
                index as nat,
            ) {
                Some(s) => Some(out@ + s),
                None => None,
            },
        decreases len - start,
    {
        let ghost rest = table@.skip(start as int);
        let ghost prev = out@;
        if index >= len - start {
            return Err(DmglrError::FilterIndexError(index));
        }
        out.push(table[start + index]);
        assert(rest[index as int] == table@[start + index]);
        if width < len - start {
            assert(rest.skip(width as int) =~= table@.skip((start + width) as int));
            start = start + width;
        } else {
            assert(table@.skip(len as int) =~= Seq::<u32>::empty());
            start = len;
        }
        proof {
            match pick_rank(table@.skip(start as int), width as nat, index as nat) {
                Some(t) => {
                    assert(prev + (seq![rest[index as int]] + t) =~= out@ + t);
                },
                None => {},
            }
        }
    }
    proof {
        assert(table@.skip(len as int) =~= Seq::<u32>::empty());
        assert(out@ + Seq::<u32>::empty() =~= out@);
    }
    Ok(out)
}

/// Result of `get_threads`: the socket filter, then the rank filter, then
/// the parity filter, each applied only when given.
pub open spec fn threads_spec(
    smt: SMT,
    th: Option<Thread>,
    sck: Option<Socket>,
    p: Option<CoreParity>,
) -> Result<Seq<u32>, DmglrError> {
    let t1 = socket_spec(table_spec(smt), sck, smt.extra_threads_spec());
    match th {
        None => Ok(parity_spec(t1, p)),
        Some(k) => if !k.coherent_spec(smt) {
            Err(DmglrError::IncompatibleFilter { thread_rank: k, width: smt.width_spec() as u32 })
        } else {
            match pick_rank(t1, smt.width_spec(), k.index_spec()) {
                Some(t2) => Ok(parity_spec(t2, p)),
                None => Err(DmglrError::FilterIndexError(k.index_spec() as usize)),
            }
        },
    }
}

/// Keeps the values of `table` that have parity `p`, in order.
pub fn select_parity(table: &Vec<u32>, p: CoreParity) -> (r: Vec<u32>)
    ensures
        r@ == table@.filter(parity_pred(p)),
{
    let mut out: Vec<u32> = Vec::new();
    let mut i: usize = 0;
    while i < table.len()
        invariant
            i <= table@.len(),
            out@ == table@.take(i as int).filter(parity_pred(p)),
        decreases table@.len() - i,
    {
        let v = table[i];
        let keep = match p {
            CoreParity::Odd => v % 2 == 1,
            CoreParity::Even => v % 2 == 0,
        };
        if keep {
            out.push(v);
        }
        proof {
            reveal(Seq::filter);
            assert(table@.take(i + 1).drop_last() =~= table@.take(i as int));
        }
        i = i + 1;
    }
    assert(table@.take(i as int) =~= table@);
    out
}

/// The OpenMPI-order indices of the table for `smt`, narrowed by socket,
/// then by thread rank, then by parity, each filter only when given.
pub fn get_threads(
    smt: &SMT,
    th: Option<Thread>,
    sck: Option<Socket>,
    p: Option<CoreParity>,
) -> (r: Result<Vec<u32>, DmglrError>)
    ensures
        r is Ok <==> threads_spec(*smt, th, sck, p) is Ok,
        r is Ok ==> threads_spec(*smt, th, sck, p) == Ok::<Seq<u32>, DmglrError>(r->Ok_0@),
        r is Err ==> threads_spec(*smt, th, sck, p) == Err::<Seq<u32>, DmglrError>(r->Err_0),
{
    let smt_val = smt.width();
    let mut table = generate_table(smt);

    if let Some(sck_filter) = sck {
        let extra = smt.get_extra_threads() as usize;
        let tmp = match sck_filter {
            Socket::N0 => slice_subrange(table.as_slice(), 0, extra),
            Socket::N1 => slice_subrange(table.as_slice(), extra, table.len()),
        };
        table = slice_to_vec(tmp);
        assert(table@ =~= socket_spec(table_spec(*smt), sck, smt.extra_threads_spec()));
    }

    if let Some(th_filter) = th {
        if !th_filter.coherent(smt) {
            return Err(DmglrError::IncompatibleFilter { thread_rank: th_filter, width: smt_val });
        }
        table = match select_rank(&table, smt_val as usize, th_filter.index()) {
            Ok(t) => t,
            Err(e) => {
                return Err(e);
            },
        };
    }

    if let Some(p_filter) = p {
        table = select_parity(&table, p_filter);
    }

    Ok(table)
}

/// Splitting the full table by socket gives `extra_threads` entries to
/// `N0` and the rest to `N1`; with no other filter, that is what
/// `get_threads` returns.
pub proof fn lemma_socket_lengths(smt: SMT)
    ensures
        threads_spec(smt, None, Some(Socket::N0), None) == Ok::<Seq<u32>, DmglrError>(
            socket_spec(table_spec(smt), Some(Socket::N0), smt.extra_threads_spec()),
        ),
        threads_spec(smt, None, Some(Socket::N1), None) == Ok::<Seq<u32>, DmglrError>(
            socket_spec(table_spec(smt), Some(Socket::N1), smt.extra_threads_spec()),
        ),
        socket_spec(table_spec(smt), Some(Socket::N0), smt.extra_threads_spec()).len()
            == smt.extra_threads_spec(),
        socket_spec(table_spec(smt), Some(Socket::N1), smt.extra_threads_spec()).len()
            == table_spec(smt).len() - smt.extra_threads_spec(),
{
}

/// The parity filter keeps only odd values for `Odd` and only even values
/// for `Even`, and the two results together hold every value of the input.
pub proof fn lemma_parity_split(t: Seq<u32>)
    ensures
        forall|i: int|
            0 <= i < parity_spec(t, Some(CoreParity::Odd)).len() ==> #[trigger] parity_spec(
                t,
                Some(CoreParity::Odd),
            )[i] % 2 == 1,
        forall|i: int|
            0 <= i < parity_spec(t, Some(CoreParity::Even)).len() ==> #[trigger] parity_spec(
                t,
                Some(CoreParity::Even),
            )[i] % 2 == 0,
        parity_spec(t, Some(CoreParity::Odd)).to_set() + parity_spec(
            t,
            Some(CoreParity::Even),
        ).to_set() == t.to_set(),
{
    let odd = parity_pred(CoreParity::Odd);
    let even = parity_pred(CoreParity::Even);
    assert forall|i: int| 0 <= i < t.filter(odd).len() implies #[trigger] t.filter(odd)[i] % 2
        == 1 by {
        t.lemma_filter_pred(odd, i);
    }
    assert forall|i: int| 0 <= i < t.filter(even).len() implies #[trigger] t.filter(even)[i] % 2
        == 0 by {
        t.lemma_filter_pred(even, i);
    }
    assert forall|v: u32| (t.filter(odd).to_set() + t.filter(even).to_set()).contains(v)
        <==> t.to_set().contains(v) by {
        if t.contains(v) {
            let i = choose|i: int| 0 <= i < t.len() && t[i] == v;
            if v % 2 == 1 {
                t.lemma_filter_contains(odd, i);
            } else {
                t.lemma_filter_contains(even, i);
            }
        }
        if t.filter(odd).contains(v) {
            t.lemma_filter_contains_rev(odd, v);
        }
        if t.filter(even).contains(v) {
            t.lemma_filter_contains_rev(even, v);
        }
    }
    assert(t.filter(odd).to_set() + t.filter(even).to_set() =~= t.to_set());
}

/// Taking one rank from each chunk of a sequence made of whole chunks never
/// misses, as long as the rank lies within a chunk.
pub proof fn lemma_pick_rank_whole_chunks(t: Seq<u32>, w: nat, k: nat, m: nat)
    requires
        w > 0,
        k < w,
        t.len() == m * w,
    ensures
        pick_rank(t, w, k) is Some,
    decreases m,
{
    if m > 0 {
        assert(t.len() >= w) by (nonlinear_arith)
            requires
                t.len() == m * w,
                m > 0,
        ;
        let rest = if w < t.len() {
            t.skip(w as int)
        } else {
            Seq::empty()
        };
        assert(rest.len() == (m - 1) as nat * w) by (nonlinear_arith)
            requires
                t.len() == m * w,
                m > 0,
                t.len() >= w,
                rest.len() == t.len() - w,
        ;
        lemma_pick_rank_whole_chunks(rest, w, k, (m - 1) as nat);
    } else {
        assert(t.len() == 0) by (nonlinear_arith)
            requires
                t.len() == m * w,
                m == 0,
        ;
    }
}

/// `get_threads` fails exactly when a thread rank is given that the SMT
/// level cannot reach, and then with `IncompatibleFilter`: a `Third` rank
/// always fails at `L2` and never fails at `L4`.
pub proof fn lemma_get_threads_fails_only_on_rank(
    smt: SMT,
    th: Option<Thread>,
    sck: Option<Socket>,
    p: Option<CoreParity>,
)
    ensures
        threads_spec(smt, th, sck, p) is Err <==> (th is Some && !th->0.coherent_spec(smt)),
        th is Some && !th->0.coherent_spec(smt) ==> threads_spec(smt, th, sck, p) == Err::<
            Seq<u32>,
            DmglrError,
        >(DmglrError::IncompatibleFilter { thread_rank: th->0, width: smt.width_spec() as u32 }),
        threads_spec(SMT::L4, Some(Thread::Third), sck, p) is Ok,
        threads_spec(SMT::L2, Some(Thread::Third), sck, p) == Err::<Seq<u32>, DmglrError>(
            DmglrError::IncompatibleFilter { thread_rank: Thread::Third, width: 2 },
        ),
{
    assert forall|s: SMT, k: Thread| #[trigger] k.coherent_spec(s) implies pick_rank(
        socket_spec(table_spec(s), sck, s.extra_threads_spec()),
        s.width_spec(),
        k.index_spec(),
    ) is Some by {
        let t1 = socket_spec(table_spec(s), sck, s.extra_threads_spec());
        let m: nat = if sck is Some { 32 } else { 64 };
        assert(t1.len() == m * s.width_spec());
        lemma_pick_rank_whole_chunks(t1, s.width_spec(), k.index_spec(), m);
    }
}

/// Each value that `pick_rank` yields is one of the input's values.
proof fn lemma_pick_rank_in_range(t: Seq<u32>, w: nat, k: nat, smt: SMT)
    requires
        w > 0,
        all_in_range(t, smt),
        pick_rank(t, w, k) is Some,
    ensures
        all_in_range(pick_rank(t, w, k)->0, smt),
    decreases t.len(),
{
    if t.len() > 0 {
        let rest = if w < t.len() {
            t.skip(w as int)
        } else {
            Seq::empty()
        };
        lemma_pick_rank_in_range(rest, w, k, smt);
    }
}

/// Every index that `get_threads` yields is a valid OpenMPI-order index.
pub proof fn lemma_threads_in_range(
    smt: SMT,
    th: Option<Thread>,
    sck: Option<Socket>,
    p: Option<CoreParity>,
)
    ensures
        threads_spec(smt, th, sck, p) is Ok ==> all_in_range(threads_spec(smt, th, sck, p)->Ok_0, smt),
{
    let t0 = table_spec(smt);
    assert forall|i: int| 0 <= i < t0.len() implies t0[i] < thread_count(smt) by {
        lemma_table_is_mangled(smt, i as nat);
        crate::ompi::lemma_demangle_of_mangle(i as nat, smt);
    }
    let t1 = socket_spec(t0, sck, smt.extra_threads_spec());
    assert(all_in_range(t1, smt));
    let t2 = match th {
        Some(k) => match pick_rank(t1, smt.width_spec(), k.index_spec()) {
            Some(t) => t,
            None => t1,
        },
        None => t1,
    };
    if th is Some {
        if pick_rank(t1, smt.width_spec(), th->0.index_spec()) is Some {
            lemma_pick_rank_in_range(t1, smt.width_spec(), th->0.index_spec(), smt);
        }
    }
    assert(all_in_range(t2, smt));
    if p is Some {
        let pred = parity_pred(p->0);
        assert forall|i: int| 0 <= i < t2.filter(pred).len() implies t2.filter(pred)[i]
            < thread_count(smt) by {
            let v = t2.filter(pred)[i];
            assert(t2.filter(pred).contains(v));
            t2.lemma_filter_contains_rev(pred, v);
        }
    }
}

/// Entry `p` of the full table is the OpenMPI-order index of hardware
/// thread `p`.
pub proof fn lemma_table_is_mangled(smt: SMT, p: nat)
    requires
        p < thread_count(smt),
    ensures
        table_spec(smt)[p as int] == mangle_spec(p, smt),
{
    match smt {
        SMT::L2 => {
            assert(table_entry(smt, p) == mangle_spec(p, smt)) by (nonlinear_arith)
                requires
                    p < 128,
                    smt == SMT::L2,
            ;
        },
        SMT::L4 => {
            assert(table_entry(smt, p) == mangle_spec(p, smt)) by (nonlinear_arith)
                requires
                    p < 256,
                    smt == SMT::L4,
            ;
        },
    }
}

} // verus!
