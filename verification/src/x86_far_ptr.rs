//! Real-mode far pointers: a 16-bit segment and a 16-bit offset that
//! together address the low 20-bit address space.

use vstd::prelude::*;

verus! {

/// An x86 far pointer (segment and offset).
pub struct X86FarPtr {
    pub offset: u16,
    pub segment: u16,
}

impl X86FarPtr {
    /// The linear address that a far pointer denotes: the segment shifted
    /// left by four bits, combined with the offset.
    pub open spec fn spec_linear_addr(self) -> usize {
        (((self.segment as usize) << 4) | (self.offset as usize)) as usize
    }

    /// Returns the null far pointer.
    pub fn null() -> (r: Self)
        ensures
            r.segment == 0,
            r.offset == 0,
    {
        Self { offset: 0, segment: 0 }
    }

    /// Converts an array holding an offset and a segment, in that order,
    /// into a far pointer.
    pub fn from_array(far_ptr: [u16; 2]) -> (r: Self)
        ensures
            r.offset == far_ptr[0],
            r.segment == far_ptr[1],
    {
        Self { offset: far_ptr[0], segment: far_ptr[1] }
    }

    /// Converts a linear address into a far pointer, if the address lies
    /// in the 20-bit address space.  The offset keeps only the low four
    /// bits of the address; the segment holds the rest.
    pub fn from_linear_addr(linear_addr: usize) -> (r: Option<Self>)
        ensures
            linear_addr < 0x100000 <==> r is Some,
            r matches Some(fp) ==> {
                &&& fp.offset == linear_addr % 16
                &&& fp.segment == linear_addr / 16
                &&& fp.spec_linear_addr() == linear_addr
            },
    {
        if linear_addr < (1usize << 20) {
            let offset: u16 = (linear_addr % 16) as u16;
            let segment: u16 = (linear_addr / 16) as u16;
            proof {
                assert((1usize << 20) == 0x100000) by (bit_vector);
                assert(((segment as usize) << 4) | (offset as usize) == linear_addr) by (bit_vector)
                    requires
                        linear_addr < 0x100000,
                        offset == linear_addr % 16,
                        segment == linear_addr / 16,
                ;
            }
            Some(Self { offset, segment })
        } else {
            proof {
                assert((1usize << 20) == 0x100000) by (bit_vector);
            }
            None
        }
    }

    /// Converts the far pointer into a linear address.
    pub fn to_linear_addr(&self) -> (r: usize)
        ensures
            r == self.spec_linear_addr(),
    {
        ((self.segment as usize) << 4) | (self.offset as usize)
    }
}

} // verus!
