use vstd::prelude::*;

use crate::error::DmglrError;
use crate::filter::{get_threads, threads_spec, CoreParity, Socket, Thread};
use crate::filter::lemma_threads_in_range;
use crate::ompi::{all_in_range, demangle, demangle_spec, mangle, mangle_spec, thread_count};
use crate::smt::SMT;

verus! {

/// Values in ascending order.
pub open spec fn sorted(s: Seq<u32>) -> bool {
    forall|i: int, j: int| 0 <= i <= j < s.len() ==> s[i] <= s[j]
}

/// Position of the first value that is not a valid OpenMPI-order index.
pub open spec fn is_first_out_of_range(s: Seq<u32>, smt: SMT, i: int) -> bool {
    0 <= i < s.len() && s[i] >= thread_count(smt) && all_in_range(s.take(i), smt)
}

pub open spec fn demangled(s: Seq<u32>, smt: SMT) -> Seq<u32> {
    s.map_values(|x: u32| demangle_spec(x as nat, smt) as u32)
}

pub open spec fn mangled(s: Seq<u32>, smt: SMT) -> Seq<u32> {
    s.map_values(|x: u32| mangle_spec(x as nat, smt) as u32)
}

/// Relies on slice::sort: afterwards the vector holds the same values,
/// in ascending order.
#[verifier::external_body]
fn sort_values(v: &mut Vec<u32>)
    ensures
        final(v)@.to_multiset() == old(v)@.to_multiset(),
        sorted(final(v)@),
{
    v.sort();
}

/// Demangles each OpenMPI-order index and returns the hardware indices in
/// ascending order; fails on the first index that is out of range.
pub fn demangle_cmd(smt: &SMT, threads: &Vec<u32>) -> (r: Result<Vec<u32>, DmglrError>)
    ensures
        r is Ok <==> all_in_range(threads@, *smt),
        r is Ok ==> sorted(r->Ok_0@) && r->Ok_0@.to_multiset() == demangled(
            threads@,
            *smt,
        ).to_multiset(),
        r is Err ==> exists|i: int|
            is_first_out_of_range(threads@, *smt, i) && r->Err_0 == DmglrError::OutOfRange(
                #[trigger] threads@[i],
            ),
{
    let mut output: Vec<u32> = Vec::with_capacity(threads.len());
    let mut i: usize = 0;
    while i < threads.len()
        invariant
            i <= threads@.len(),
            all_in_range(threads@.take(i as int), *smt),
            output@ == demangled(threads@.take(i as int), *smt),
        decreases threads@.len() - i,
    {
        let th = threads[i];
        match demangle(th, smt) {
            Ok(v) => {
                output.push(v);
            },
            Err(e) => {
                assert(is_first_out_of_range(threads@, *smt, i as int));
                return Err(e);
            },
        }
        assert(threads@.take(i + 1) =~= threads@.take(i as int).push(th));
        assert(output@ =~= demangled(threads@.take(i + 1), *smt));
        i = i + 1;
    }
    assert(threads@.take(i as int) =~= threads@);
    sort_values(&mut output);
    Ok(output)
}

/// Mangles each hardware index and returns the OpenMPI-order indices in
/// ascending order.
pub fn mangle_cmd(smt: &SMT, threads: &Vec<u32>) -> (r: Vec<u32>)
    ensures
        sorted(r@),
        r@.to_multiset() == mangled(threads@, *smt).to_multiset(),
{
    let mut output: Vec<u32> = Vec::with_capacity(threads.len());
    let mut i: usize = 0;
    while i < threads.len()
        invariant
            i <= threads@.len(),
            output@ == mangled(threads@.take(i as int), *smt),
        decreases threads@.len() - i,
    {
        let th = threads[i];
        output.push(mangle(th, smt));
        assert(threads@.take(i + 1) =~= threads@.take(i as int).push(th));
        assert(output@ =~= mangled(threads@.take(i + 1), *smt));
        i = i + 1;
    }
    assert(threads@.take(i as int) =~= threads@);
    sort_values(&mut output);
    output
}

/// The hardware indices of the threads that pass the filters, in ascending
/// order.
pub fn get_cmd(smt: &SMT, th: Option<Thread>, sck: Option<Socket>, p: Option<CoreParity>) -> (r:
    Result<Vec<u32>, DmglrError>)
    ensures
        r is Ok <==> threads_spec(*smt, th, sck, p) is Ok,
        r is Err ==> threads_spec(*smt, th, sck, p) == Err::<Seq<u32>, DmglrError>(r->Err_0),
        r is Ok ==> sorted(r->Ok_0@) && r->Ok_0@.to_multiset() == demangled(
            threads_spec(*smt, th, sck, p)->Ok_0,
            *smt,
        ).to_multiset(),
{
    let filter = match get_threads(smt, th, sck, p) {
        Ok(f) => f,
        Err(e) => {
            return Err(e);
        },
    };
    proof {
        lemma_threads_in_range(*smt, th, sck, p);
    }
    demangle_cmd(smt, &filter)
}

} // verus!
