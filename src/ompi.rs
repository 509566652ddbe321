use vstd::prelude::*;

use crate::error::DmglrError;
use crate::smt::SMT;

verus! {

/// Physical cores per socket-column group.
pub const CORE_NUMBER: u32 = 32;

/// Number of hardware threads of the machine at the given SMT level.
pub open spec fn thread_count(smt: SMT) -> nat {
    smt.width_spec() * 64
}

/// Every value is a valid OpenMPI-order index.
pub open spec fn all_in_range(s: Seq<u32>, smt: SMT) -> bool {
    forall|i: int| 0 <= i < s.len() ==> s[i] < thread_count(smt)
}

/// OpenMPI-order index of the hardware thread `input`.
pub open spec fn mangle_spec(input: nat, smt: SMT) -> nat {
    let w = smt.width_spec();
    let row = input / w;
    let col = input % w;
    let base = 32 * col + if input >= 32 * w { smt.jump_spec() } else { 0 };
    match smt {
        SMT::L2 => base + row,
        SMT::L4 => base + row % 32,
    }
}

/// Hardware thread index of the OpenMPI-order index `input`, which must be
/// below `thread_count(smt)`.
pub open spec fn demangle_spec(input: nat, smt: SMT) -> nat {
    let jump = smt.extra_threads_spec();
    let flag = input >= jump;
    let value: nat = if flag { (input - jump) as nat } else { input };
    let col = value / 32;
    let row = value % 32;
    smt.width_spec() * row + col + if flag { jump } else { 0 }
}

/// The character of a decimal digit.
pub open spec fn digit_char(d: nat) -> char {
    ((48 + d) as u8) as char
}

/// Decimal text of a number, without leading zeros.
pub open spec fn decimal_text(n: nat) -> Seq<char>
    decreases n,
{
    if n < 10 {
        seq![digit_char(n)]
    } else {
        decimal_text(n / 10).push(digit_char(n % 10))
    }
}

/// The values in decimal, separated by commas.
pub open spec fn joined_text(s: Seq<u32>) -> Seq<char>
    decreases s.len(),
{
    if s.len() == 0 {
        Seq::empty()
    } else if s.len() == 1 {
        decimal_text(s[0] as nat)
    } else {
        joined_text(s.drop_last()) + seq![','] + decimal_text(s.last() as nat)
    }
}

/// Relies on `u32::to_string`: integers display in decimal, without
/// leading zeros.
#[verifier::external_body]
fn u32_text(n: u32) -> (r: String)
    ensures
        r@ == decimal_text(n as nat),
{
    n.to_string()
}

/// The values in decimal, separated by commas, as a CPU list. The list
/// must not be empty.
pub fn format_vector(input: &Vec<u32>) -> (r: String)
    requires
        input@.len() >= 1,
    ensures
        r@ == joined_text(input@),
{
    let mut output = String::new();
    let mut i: usize = 0;
    while i < input.len()
        invariant
            i <= input@.len(),
            output@ == joined_text(input@.take(i as int)),
        decreases input@.len() - i,
    {
        let parsed = u32_text(input[i]);
        if i > 0 {
            output.append(",");
            proof {
                reveal_strlit(",");
            }
        }
        output.append(parsed.as_str());
        assert(input@.take(i + 1).drop_last() =~= input@.take(i as int));
        i = i + 1;
    }
    assert(input@.take(i as int) =~= input@);
    output
}

/// Converts an Intel-styled hardware thread index to OpenMPI order.
///
/// For `L4` the row is taken modulo 32, so inputs beyond the last hardware
/// thread fold back onto valid rows; this behaviour is kept as it is.
pub fn mangle(input: u32, smt: &SMT) -> (r: u32)
    ensures
        r == mangle_spec(input as nat, *smt),
{
    let smt_val: u32 = smt.width();
    let row_index = input / smt_val;
    let col_index = input % smt_val;

    let mut start: u32 = CORE_NUMBER * col_index;

    let jump = smt.get_jump();
    if input >= CORE_NUMBER * smt_val {
        start = start + jump;
    }

    match smt {
        SMT::L2 => start + row_index,
        SMT::L4 => start + (row_index % 32),
    }
}

/// Converts an OpenMPI-order index back to the Intel-styled hardware index.
/// Fails with `OutOfRange` exactly when the input exceeds the last thread.
pub fn demangle(input: u32, smt: &SMT) -> (r: Result<u32, DmglrError>)
    ensures
        input >= thread_count(*smt) <==> r is Err,
        input >= thread_count(*smt) ==> r == Err::<u32, DmglrError>(DmglrError::OutOfRange(input)),
        input < thread_count(*smt) ==> r == Ok::<u32, DmglrError>(
            demangle_spec(input as nat, *smt) as u32,
        ),
{
    let smt_val: u32 = smt.width();

    if input > (smt_val * 64) - 1 {
        return Err(DmglrError::OutOfRange(input));
    }

    let jump = smt.get_extra_threads();

    let flag = input >= jump;
    let thread_value = if flag {
        input - jump
    } else {
        input
    };

    let col_index = thread_value / CORE_NUMBER;
    let row_index = thread_value % CORE_NUMBER;

    let output = smt_val * row_index + col_index + if flag {
        jump
    } else {
        0
    };

    Ok(output)
}

/// On the valid domain, `mangle` yields a valid OpenMPI-order index and
/// `demangle` takes it back to the hardware thread it came from.
pub proof fn lemma_demangle_of_mangle(hw: nat, smt: SMT)
    requires
        hw < thread_count(smt),
    ensures
        mangle_spec(hw, smt) < thread_count(smt),
        demangle_spec(mangle_spec(hw, smt), smt) == hw,
{
    match smt {
        SMT::L2 => {
            assert(mangle_spec(hw, smt) < thread_count(smt)
                && demangle_spec(mangle_spec(hw, smt), smt) == hw) by (nonlinear_arith)
                requires
                    hw < 128,
                    smt == SMT::L2,
            ;
        },
        SMT::L4 => {
            assert(mangle_spec(hw, smt) < thread_count(smt)
                && demangle_spec(mangle_spec(hw, smt), smt) == hw) by (nonlinear_arith)
                requires
                    hw < 256,
                    smt == SMT::L4,
            ;
        },
    }
}

/// On the valid domain, `demangle` yields a valid hardware thread index and
/// `mangle` takes it back to the OpenMPI-order index it came from.
pub proof fn lemma_mangle_of_demangle(o: nat, smt: SMT)
    requires
        o < thread_count(smt),
    ensures
        demangle_spec(o, smt) < thread_count(smt),
        mangle_spec(demangle_spec(o, smt), smt) == o,
{
    match smt {
        SMT::L2 => {
            assert(demangle_spec(o, smt) < thread_count(smt)
                && mangle_spec(demangle_spec(o, smt), smt) == o) by (nonlinear_arith)
                requires
                    o < 128,
                    smt == SMT::L2,
            ;
        },
        SMT::L4 => {
            assert(demangle_spec(o, smt) < thread_count(smt)
                && mangle_spec(demangle_spec(o, smt), smt) == o) by (nonlinear_arith)
                requires
                    o < 256,
                    smt == SMT::L4,
            ;
        },
    }
}

} // verus!
