use vstd::prelude::*;

use crate::cursor::ByteCursor;
use crate::delta_instruction_traits::ConvertBetweenBytes;
use crate::instruction_error::InstructionError;
use crate::instructions::{
    absorbs_remove, absorbs_remove_now, apply_instruction, filled_from, InstructionView,
    MAX_INSTRUCTION_LENGTH, MIN_INSTRUCTION_LENGTH, REMOVE_INSTRUCTION_SIGN,
};

verus! {

/// A Remove on its own: a count of source bytes to skip.
#[derive(Debug, PartialEq, Eq, Clone, Copy, Structural)]
pub struct RemoveInstruction {
    length: u8,
}

impl View for RemoveInstruction {
    type V = InstructionView;

    closed spec fn view(&self) -> InstructionView {
        InstructionView::Remove { length: self.length as nat }
    }
}

/// Reads a Remove from the front of `b`; any other sign is invalid here.
pub open spec fn parse_remove(b: Seq<u8>) -> Result<InstructionView, InstructionError> {
    if b.len() == 0 {
        Err(InstructionError::MissingSign)
    } else if b[0] != REMOVE_INSTRUCTION_SIGN {
        Err(InstructionError::InvalidSign)
    } else if b.len() < 2 {
        Err(InstructionError::MissingLength)
    } else {
        Ok(InstructionView::Remove { length: b[1] as nat })
    }
}

impl RemoveInstruction {
    pub fn new(length: u8) -> (r: Self)
        ensures
            r@ == (InstructionView::Remove { length: length as nat }),
    {
        Self { length }
    }

    pub fn len(&self) -> (r: u8)
        ensures
            r == self@.len(),
    {
        self.length
    }

    pub fn is_empty(&self) -> (r: bool)
        ensures
            r == (self@.len() == 0),
    {
        self.len() == MIN_INSTRUCTION_LENGTH
    }

    pub fn is_full(&self) -> (r: bool)
        ensures
            r == self@.is_full(),
    {
        self.len() == MAX_INSTRUCTION_LENGTH
    }

    /// How many bytes of content differ from the default byte; a Remove
    /// carries no content, so there is no such count.
    pub fn non_default_item_count(&self) -> (r: Option<u8>)
        ensures
            r is None,
    {
        None
    }

    /// Counts one more skipped byte, unless the instruction is full.
    pub fn push(&mut self, byte: u8) -> (r: Result<(), InstructionError>)
        ensures
            old(self)@.is_full() ==> r == Err::<(), InstructionError>(
                InstructionError::ContentOverflow,
            ) && final(self)@ == old(self)@,
            !old(self)@.is_full() ==> r is Ok && final(self)@ == old(self)@.pushed(byte),
    {
        if self.is_full() {
            return Err(InstructionError::ContentOverflow);
        }
        self.length = self.length + 1;
        Ok(())
    }

    /// Skips source bytes that are not the backbone's next byte, up to the
    /// capacity. The backbone and the target are left as they are.
    pub fn fill(&mut self, lcs: &mut ByteCursor, source: &mut ByteCursor, target: &mut ByteCursor)
        requires
            old(lcs).wf(),
            old(source).wf(),
            old(target).wf(),
        ensures
            final(lcs).wf(),
            final(source).wf(),
            final(target).wf(),
            final(lcs).data() == old(lcs).data(),
            final(source).data() == old(source).data(),
            final(target).data() == old(target).data(),
            filled_from(
                old(self)@,
                final(self)@,
                old(lcs).rest(),
                old(source).rest(),
                old(target).rest(),
                final(lcs).rest(),
                final(source).rest(),
                final(target).rest(),
            ),
    {
        let ghost s = source.rest();
        let ghost len0 = self.length as int;
        while self.length < MAX_INSTRUCTION_LENGTH && absorbs_remove_now(lcs, source)
            invariant
                lcs.wf(),
                source.wf(),
                source.data() == old(source).data(),
                s == old(source).rest(),
                len0 == old(self).length,
                len0 <= self.length,
                self.length - len0 <= s.len(),
                source.rest() == s.skip(self.length - len0),
                forall|x: int|
                    0 <= x < self.length - len0 ==> #[trigger] absorbs_remove(lcs.rest(), s.skip(x)),
            decreases MAX_INSTRUCTION_LENGTH - self.length,
        {
            let ghost n = self.length - len0;
            source.next();
            self.length = self.length + 1;
            assert(s.skip(n).skip(1) =~= s.skip(n + 1));
        }
    }

    /// Skips `len()` source bytes; output is untouched.
    ///
    /// Fails, consuming nothing, when fewer bytes are left.
    pub fn apply(&self, source: &mut ByteCursor, output: &mut Vec<u8>) -> (r: Result<
        (),
        InstructionError,
    >)
        requires
            old(source).wf(),
        ensures
            final(source).wf(),
            final(source).data() == old(source).data(),
            final(output)@ == old(output)@,
            match apply_instruction(old(output)@, old(source).rest(), self@) {
                Ok((o, s)) => r is Ok && final(source).rest() == s,
                Err(e) => r == Err::<(), InstructionError>(e) && final(source).rest() == old(
                    source,
                ).rest(),
            },
    {
        if source.remaining() < self.length as usize {
            return Err(InstructionError::SourceUnderrun);
        }
        source.advance(self.length as usize);
        Ok(())
    }

    pub fn byte_sign(&self) -> (r: u8)
        ensures
            r == self@.sign(),
    {
        REMOVE_INSTRUCTION_SIGN
    }

    /// The size of the wire form: the sign and the length byte.
    pub fn byte_length(&self) -> (r: usize)
        ensures
            r == self@.to_bytes().len(),
    {
        2
    }
}

impl ConvertBetweenBytes for RemoveInstruction {
    open spec fn encodable(&self) -> bool {
        true
    }

    open spec fn spec_to_bytes(&self) -> Seq<u8> {
        self@.to_bytes()
    }

    open spec fn spec_from_bytes(bytes: Seq<u8>) -> Result<InstructionView, InstructionError> {
        parse_remove(bytes)
    }

    /// The wire form: the sign, then the length.
    fn to_bytes(&self) -> (r: Vec<u8>) {
        let r = vec![self.byte_sign(), self.length];
        assert(r@ =~= self@.to_bytes());
        r
    }

    /// Reads a Remove from the front of `bytes`.
    fn try_from_bytes(bytes: &mut ByteCursor) -> (r: Result<Self, InstructionError>) {
        let ghost b = bytes.rest();
        match bytes.next() {
            Some(sign) => if sign != REMOVE_INSTRUCTION_SIGN {
                return Err(InstructionError::InvalidSign);
            },
            None => return Err(InstructionError::MissingSign),
        }
        let length = match bytes.next() {
            Some(l) => l,
            None => return Err(InstructionError::MissingLength),
        };
        assert(bytes.rest() =~= b.skip(2));
        Ok(Self { length })
    }
}

impl Default for RemoveInstruction {
    fn default() -> (r: Self)
        ensures
            r@ == (InstructionView::Remove { length: 0 }),
    {
        Self::new(MIN_INSTRUCTION_LENGTH)
    }
}

} // verus!
