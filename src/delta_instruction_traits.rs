use vstd::prelude::*;

use crate::cursor::ByteCursor;
use crate::instruction_error::InstructionError;

verus! {

/// Conversion between an instruction and its wire form.
pub trait ConvertBetweenBytes: Sized + View {
    /// Whether the value can be written in the wire format.
    spec fn encodable(&self) -> bool;

    /// The wire form of the value.
    spec fn spec_to_bytes(&self) -> Seq<u8>;

    /// What reading a value from the front of `bytes` yields.
    spec fn spec_from_bytes(bytes: Seq<u8>) -> Result<Self::V, InstructionError>;

    fn to_bytes(&self) -> (r: Vec<u8>)
        requires
            self.encodable(),
        ensures
            r@ == self.spec_to_bytes(),
    ;

    /// Reads one value; on success the cursor has moved past exactly its
    /// wire form.
    fn try_from_bytes(bytes: &mut ByteCursor) -> (r: Result<Self, InstructionError>)
        requires
            old(bytes).wf(),
        ensures
            final(bytes).wf(),
            final(bytes).data() == old(bytes).data(),
            match r {
                Ok(v) => {
                    &&& Self::spec_from_bytes(old(bytes).rest()) == Ok::<
                        Self::V,
                        InstructionError,
                    >(v@)
                    &&& v.encodable()
                    &&& final(bytes).rest() == old(bytes).rest().skip(
                        v.spec_to_bytes().len() as int,
                    )
                },
                Err(e) => Self::spec_from_bytes(old(bytes).rest()) == Err::<
                    Self::V,
                    InstructionError,
                >(e),
            },
    ;
}

} // verus!
