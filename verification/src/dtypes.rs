//! Element types of KTIR tensors.

use vstd::prelude::*;

verus! {

/// Element dtype of a tile or a memory view.
#[derive(Clone, Copy, Debug, PartialEq, Eq, Structural)]
pub enum DType {
    F16,
    F32,
    I32,
    I64,
    Bool,
}

/// Width in bytes of one element of `d`.
pub open spec fn spec_bytes_per_elem(d: DType) -> nat {
    match d {
        DType::F16 => 2,
        DType::F32 => 4,
        DType::I32 => 4,
        DType::I64 => 8,
        DType::Bool => 1,
    }
}

/// The textual MLIR name of a dtype.
pub open spec fn spec_dtype_name(d: DType) -> Seq<char> {
    match d {
        DType::F16 => seq!['f', '1', '6'],
        DType::F32 => seq!['f', '3', '2'],
        DType::I32 => seq!['i', '3', '2'],
        DType::I64 => seq!['i', '6', '4'],
        DType::Bool => seq!['i', '1'],
    }
}

impl DType {
    /// Width in bytes of one element.
    pub fn bytes_per_elem(self) -> (n: usize)
        ensures
            n == spec_bytes_per_elem(self),
    {
        match self {
            DType::F16 => 2,
            DType::F32 => 4,
            DType::I32 => 4,
            DType::I64 => 8,
            DType::Bool => 1,
        }
    }

    /// Parse an MLIR element type name (`f16`, `f32`, `i32`, `i64`, `i1`).
    /// Any other text is refused.
    pub fn parse(s: &str) -> (r: Result<DType, ()>)
        ensures
            r matches Ok(d) ==> spec_dtype_name(d) == s@,
            r is Err ==> forall|d: DType| spec_dtype_name(d) != s@,
    {
        let cs = crate::text::str_to_chars(s);
        let ds = [DType::F16, DType::F32, DType::I32, DType::I64, DType::Bool];
        let mut i: usize = 0;
        while i < 5
            invariant
                0 <= i <= 5,
                cs@ == s@,
                ds@ == seq![DType::F16, DType::F32, DType::I32, DType::I64, DType::Bool],
                forall|j: int| 0 <= j < i ==> spec_dtype_name(#[trigger] ds@[j]) != s@,
            decreases 5 - i,
        {
            let d = ds[i];
            let name = d.name_chars();
            if crate::text::chars_eq(&name, &cs) {
                return Ok(d);
            }
            i = i + 1;
        }
        assert forall|d: DType| spec_dtype_name(d) != s@ by {
            assert(spec_dtype_name(d) == spec_dtype_name(ds@[match d {
                DType::F16 => 0int,
                DType::F32 => 1,
                DType::I32 => 2,
                DType::I64 => 3,
                DType::Bool => 4,
            }]));
        }
        Err(())
    }

    /// The textual name as characters.
    pub fn name_chars(self) -> (v: Vec<char>)
        ensures
            v@ == spec_dtype_name(self),
    {
        match self {
            DType::F16 => vec!['f', '1', '6'],
            DType::F32 => vec!['f', '3', '2'],
            DType::I32 => vec!['i', '3', '2'],
            DType::I64 => vec!['i', '6', '4'],
            DType::Bool => vec!['i', '1'],
        }
    }
}

} // verus!
