use vstd::prelude::*;

verus! {

/// One binary digit. A well-formed bit holds 0 or 1.
#[derive(Copy, Clone, Debug, PartialEq, Eq, Structural)]
pub struct Bit(pub u8);

impl Bit {
    /// The bit holds 0 or 1.
    pub open spec fn wf(self) -> bool {
        self.0 <= 1
    }
}

impl core::ops::BitXor for Bit {
    type Output = Self;

    fn bitxor(self, rhs: Self) -> (r: Self)
        ensures
            r.0 == self.0 ^ rhs.0,
    {
        Bit(self.0 ^ rhs.0)
    }
}

impl vstd::std_specs::ops::BitXorSpecImpl for Bit {
    open spec fn obeys_bitxor_spec() -> bool {
        true
    }

    open spec fn bitxor_req(self, rhs: Bit) -> bool {
        true
    }

    open spec fn bitxor_spec(self, rhs: Bit) -> Bit {
        Bit(self.0 ^ rhs.0)
    }
}

impl core::ops::BitXorAssign for Bit {
    fn bitxor_assign(&mut self, rhs: Self)
        ensures
            final(self).0 == old(self).0 ^ rhs.0,
    {
        self.0 = self.0 ^ rhs.0;
    }
}

impl core::ops::BitOrAssign for Bit {
    fn bitor_assign(&mut self, rhs: Self)
        ensures
            final(self).0 == old(self).0 | rhs.0,
    {
        self.0 = self.0 | rhs.0;
    }
}

} // verus!
