use vstd::prelude::*;

verus! {

/// Language feature: LOOP.
pub const LOOP: u16 = 0x0001;
/// Language feature: WHILE.
pub const WHILE: u16 = 0x0002;
/// Keep the line numbers of the source in expanded code.
pub const CNF_RETAIN_LNO: u16 = 0x0010;
/// Constant variables (assigning to a constant is refused).
pub const CNF_CONST: u16 = 0x0020;
/// A dedicated zero variable (needs constant variables).
pub const OPT_ZERO: u16 = 0x0120;
/// Strict mode: no macro expansion.
pub const STRCT_NO_MACRO: u16 = 0x1000;
/// Strict mode: no functions.
pub const STRCT_NO_FUNC: u16 = 0x2000;
/// Strict mode: no lowering of LOOP to WHILE.
pub const STRCT_NO_LPLWR: u16 = 0x4000;
/// Complete strict mode.
pub const STRCT: u16 = 0xF000;
/// Both LOOP and WHILE.
pub const LOOP_AND_WHILE: u16 = 0x0003;
/// Every bit that names a flag.
pub const ALL_FLAGS: u16 = 0xF133;

/// A set of compilation flags.
#[derive(Debug, Clone, Copy, PartialEq, Eq, Structural, Hash)]
pub struct CompileFlags {
    pub bits: u16,
}

impl CompileFlags {
    /// The flags whose bits are `bits`, if every bit names a flag.
    pub fn from_bits(bits: u16) -> (r: Option<CompileFlags>)
        ensures
            r is Some <==> bits & !ALL_FLAGS == 0,
            r matches Some(f) ==> f.bits == bits,
    {
        if bits & !ALL_FLAGS == 0 {
            Some(CompileFlags { bits })
        } else {
            None
        }
    }

    /// The flags of `bits`, with the bits that name no flag dropped.
    pub fn from_bits_truncate(bits: u16) -> (r: CompileFlags)
        ensures
            r.bits == bits & ALL_FLAGS,
    {
        CompileFlags { bits: bits & ALL_FLAGS }
    }

    /// No flag set.
    pub fn empty() -> (r: CompileFlags)
        ensures
            r.bits == 0,
    {
        CompileFlags { bits: 0 }
    }

    /// Whether every flag of `flags` is set.
    pub open spec fn spec_contains(&self, flags: u16) -> bool {
        self.bits & flags == flags
    }

    /// Whether every flag of `flags` is set.
    pub fn contains(&self, flags: u16) -> (r: bool)
        ensures
            r == self.spec_contains(flags),
    {
        self.bits & flags == flags
    }

    /// Whether some flag of `flags` is set.
    pub open spec fn spec_intersects(&self, flags: u16) -> bool {
        self.bits & flags != 0
    }

    /// Whether some flag of `flags` is set.
    pub fn intersects(&self, flags: u16) -> (r: bool)
        ensures
            r == self.spec_intersects(flags),
    {
        self.bits & flags != 0
    }

    /// Removes every flag.
    pub fn clear(&mut self)
        ensures
            final(self).bits == 0,
    {
        self.bits = 0;
    }
}

impl Default for CompileFlags {
    /// LOOP and WHILE.
    fn default() -> (r: CompileFlags)
        ensures
            r.bits == LOOP_AND_WHILE,
    {
        CompileFlags { bits: LOOP_AND_WHILE }
    }
}

} // verus!
