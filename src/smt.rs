use vstd::prelude::*;

use vstd::string::StrSliceExecFns;

use crate::error::DmglrError;

verus! {

/// Simultaneous multi-threading level of the machine: two or four hardware
/// threads per physical core.
#[derive(Copy, Clone, PartialEq, Eq, Structural, Debug)]
pub enum SMT {
    L2,
    L4,
}

impl SMT {
    /// Threads per core.
    pub open spec fn width_spec(self) -> nat {
        match self {
            SMT::L2 => 2,
            SMT::L4 => 4,
        }
    }

    /// Offset added to the column base of a thread in the upper half.
    pub open spec fn jump_spec(self) -> nat {
        match self {
            SMT::L2 => 32,
            SMT::L4 => 128,
        }
    }

    /// Position in the table where the second socket begins.
    pub open spec fn extra_threads_spec(self) -> nat {
        match self {
            SMT::L2 => 64,
            SMT::L4 => 128,
        }
    }

    /// Threads per core, as a machine integer.
    pub fn width(&self) -> (r: u32)
        ensures
            r == self.width_spec(),
    {
        match self {
            SMT::L2 => 2,
            SMT::L4 => 4,
        }
    }

    /// Parses the level: exactly the text "2" or "4". Any other text fails
    /// with `InvalidSmtLevel`, which carries the text.
    pub fn parse(s: &str) -> (r: Result<SMT, DmglrError>)
        ensures
            r is Ok <==> (s@ == "2"@ || s@ == "4"@),
            s@ == "2"@ ==> r == Ok::<SMT, DmglrError>(SMT::L2),
            s@ == "4"@ ==> r == Ok::<SMT, DmglrError>(SMT::L4),
            r is Err ==> (r->Err_0 is InvalidSmtLevel && r->Err_0->InvalidSmtLevel_0@ == s@),
    {
        proof {
            reveal_strlit("2");
            reveal_strlit("4");
        }
        if s.unicode_len() == 1 {
            let c = s.get_char(0);
            if c == '2' {
                assert(s@ =~= "2"@);
                return Ok(SMT::L2);
            } else if c == '4' {
                assert(s@ =~= "4"@);
                return Ok(SMT::L4);
            }
        }
        Err(DmglrError::InvalidSmtLevel(s.to_owned()))
    }

    pub fn get_jump(&self) -> (r: u32)
        ensures
            r == self.jump_spec(),
    {
        match self {
            SMT::L2 => 32,
            SMT::L4 => 128,
        }
    }

    pub fn get_extra_threads(&self) -> (r: u32)
        ensures
            r == self.extra_threads_spec(),
    {
        match self {
            SMT::L2 => 64,
            SMT::L4 => 128,
        }
    }
}

impl From<&SMT> for u32 {
    fn from(smt: &SMT) -> u32 {
        smt.width()
    }
}

impl vstd::std_specs::convert::FromSpecImpl<&SMT> for u32 {
    open spec fn obeys_from_spec() -> bool {
        true
    }

    open spec fn from_spec(smt: &SMT) -> u32 {
        smt.width_spec() as u32
    }
}

impl std::str::FromStr for SMT {
    type Err = DmglrError;

    fn from_str(s: &str) -> (r: Result<SMT, DmglrError>)
        ensures
            r is Ok <==> (s@ == "2"@ || s@ == "4"@),
            s@ == "2"@ ==> r == Ok::<SMT, DmglrError>(SMT::L2),
            s@ == "4"@ ==> r == Ok::<SMT, DmglrError>(SMT::L4),
            r is Err ==> (r->Err_0 is InvalidSmtLevel && r->Err_0->InvalidSmtLevel_0@ == s@),
    {
        proof {
            reveal_strlit("2");
            reveal_strlit("4");
        }
        SMT::parse(s)
    }
}

} // verus!
