use vstd::prelude::*;

use crate::cursor::ByteCursor;
use crate::delta_instruction_traits::ConvertBetweenBytes;
use crate::instruction_error::InstructionError;
use crate::instructions::remove_instruction::RemoveInstruction;

pub mod remove_instruction;

verus! {

/// The largest length a single instruction can hold; longer runs are split.
pub const MAX_INSTRUCTION_LENGTH: u8 = 255;

/// The length of an empty instruction.
pub const MIN_INSTRUCTION_LENGTH: u8 = 0;

/// Sign byte of a Remove on the wire: `-`.
pub const REMOVE_INSTRUCTION_SIGN: u8 = 45;

/// Sign byte of an Add on the wire: `+`.
pub const ADD_INSTRUCTION_SIGN: u8 = 43;

/// Sign byte of a Copy on the wire: `|`.
pub const COPY_INSTRUCTION_SIGN: u8 = 124;

/// One step of an edit script.
#[derive(Debug, Clone, PartialEq)]
pub enum Instruction {
    /// Skip `length` bytes of the source.
    Remove { length: u8 },
    /// Emit `content`, which the source does not provide here.
    Add { content: Vec<u8> },
    /// Emit `content`, which is also the next bytes of the source, and skip them.
    Copy { content: Vec<u8> },
}

/// The mathematical value of an [`Instruction`].
pub enum InstructionView {
    Remove { length: nat },
    Add { content: Seq<u8> },
    Copy { content: Seq<u8> },
}

impl InstructionView {
    pub open spec fn len(self) -> nat {
        match self {
            InstructionView::Remove { length } => length,
            InstructionView::Add { content } => content.len(),
            InstructionView::Copy { content } => content.len(),
        }
    }

    /// The bytes an instruction emits; a Remove emits none.
    pub open spec fn content(self) -> Seq<u8> {
        match self {
            InstructionView::Remove { .. } => Seq::empty(),
            InstructionView::Add { content } => content,
            InstructionView::Copy { content } => content,
        }
    }

    /// The length fits the capacity.
    pub open spec fn wf(self) -> bool {
        self.len() <= MAX_INSTRUCTION_LENGTH as nat
    }

    pub open spec fn is_full(self) -> bool {
        self.len() == MAX_INSTRUCTION_LENGTH as nat
    }

    pub open spec fn same_kind(self, other: InstructionView) -> bool {
        match self {
            InstructionView::Remove { .. } => other is Remove,
            InstructionView::Add { .. } => other is Add,
            InstructionView::Copy { .. } => other is Copy,
        }
    }

    pub open spec fn sign(self) -> u8 {
        match self {
            InstructionView::Remove { .. } => REMOVE_INSTRUCTION_SIGN,
            InstructionView::Add { .. } => ADD_INSTRUCTION_SIGN,
            InstructionView::Copy { .. } => COPY_INSTRUCTION_SIGN,
        }
    }

    /// The instruction after one more byte: a Remove counts it, Add and Copy
    /// keep it.
    pub open spec fn pushed(self, byte: u8) -> InstructionView {
        match self {
            InstructionView::Remove { length } => InstructionView::Remove { length: length + 1 },
            InstructionView::Add { content } => InstructionView::Add { content: content.push(byte) },
            InstructionView::Copy { content } => InstructionView::Copy {
                content: content.push(byte),
            },
        }
    }

    /// Wire form: the sign byte, the length as one byte, then the content
    /// (none for a Remove).
    pub open spec fn to_bytes(self) -> Seq<u8> {
        seq![self.sign(), self.len() as u8] + self.content()
    }
}

/// Reads one instruction from the front of `b`.
pub open spec fn parse_instruction(b: Seq<u8>) -> Result<InstructionView, InstructionError> {
    if b.len() == 0 {
        Err(InstructionError::MissingSign)
    } else if b[0] != REMOVE_INSTRUCTION_SIGN && b[0] != ADD_INSTRUCTION_SIGN && b[0]
        != COPY_INSTRUCTION_SIGN {
        Err(InstructionError::InvalidSign)
    } else if b.len() < 2 {
        Err(InstructionError::MissingLength)
    } else if b[0] == REMOVE_INSTRUCTION_SIGN {
        Ok(InstructionView::Remove { length: b[1] as nat })
    } else if b.len() < 2 + b[1] {
        Err(InstructionError::MissingContent)
    } else if b[0] == ADD_INSTRUCTION_SIGN {
        Ok(InstructionView::Add { content: b.subrange(2, 2 + b[1]) })
    } else {
        Ok(InstructionView::Copy { content: b.subrange(2, 2 + b[1]) })
    }
}

/// One replay step on the output so far and the source bytes left.
pub open spec fn apply_instruction(
    output: Seq<u8>,
    source: Seq<u8>,
    v: InstructionView,
) -> Result<(Seq<u8>, Seq<u8>), InstructionError> {
    match v {
        InstructionView::Remove { length } => if length <= source.len() {
            Ok((output, source.skip(length as int)))
        } else {
            Err(InstructionError::SourceUnderrun)
        },
        InstructionView::Add { content } => Ok((output + content, source)),
        InstructionView::Copy { content } => if content.len() > source.len() {
            Err(InstructionError::SourceUnderrun)
        } else if source.take(content.len() as int) != content {
            Err(InstructionError::ContentMismatch)
        } else {
            Ok((output + content, source.skip(content.len() as int)))
        },
    }
}

/// A Remove takes the next source byte when it is not the backbone's next byte.
pub open spec fn absorbs_remove(lcs: Seq<u8>, source: Seq<u8>) -> bool {
    source.len() > 0 && (lcs.len() == 0 || source[0] != lcs[0])
}

/// An Add takes the next target byte when it is not the backbone's next byte.
pub open spec fn absorbs_add(lcs: Seq<u8>, target: Seq<u8>) -> bool {
    target.len() > 0 && (lcs.len() == 0 || target[0] != lcs[0])
}

/// A Copy takes the next byte when backbone, source and target agree on it.
pub open spec fn absorbs_copy(lcs: Seq<u8>, source: Seq<u8>, target: Seq<u8>) -> bool {
    lcs.len() > 0 && source.len() > 0 && target.len() > 0 && source[0] == lcs[0] && target[0]
        == lcs[0]
}

/// Whether the instruction's kind would take its next byte.
pub open spec fn absorbs(v: InstructionView, lcs: Seq<u8>, source: Seq<u8>, target: Seq<u8>) -> bool {
    match v {
        InstructionView::Remove { .. } => absorbs_remove(lcs, source),
        InstructionView::Add { .. } => absorbs_add(lcs, target),
        InstructionView::Copy { .. } => absorbs_copy(lcs, source, target),
    }
}

/// `after` is `before` grown greedily from the three remaining sequences
/// `l`, `s`, `t`, which were left as `l2`, `s2`, `t2`: byte by byte while
/// the kind absorbs and the capacity is not reached.
pub open spec fn filled_from(
    before: InstructionView,
    after: InstructionView,
    l: Seq<u8>,
    s: Seq<u8>,
    t: Seq<u8>,
    l2: Seq<u8>,
    s2: Seq<u8>,
    t2: Seq<u8>,
) -> bool {
    let n = after.len() - before.len();
    &&& after.same_kind(before)
    &&& before.len() <= after.len() <= MAX_INSTRUCTION_LENGTH as nat
    &&& (after.is_full() || !absorbs(after, l2, s2, t2))
    &&& match before {
        InstructionView::Remove { .. } => {
            &&& n <= s.len()
            &&& l2 == l && s2 == s.skip(n) && t2 == t
            &&& forall|x: int| 0 <= x < n ==> #[trigger] absorbs_remove(l, s.skip(x))
        },
        InstructionView::Add { .. } => {
            &&& n <= t.len()
            &&& after.content() == before.content() + t.take(n)
            &&& l2 == l && s2 == s && t2 == t.skip(n)
            &&& forall|x: int| 0 <= x < n ==> #[trigger] absorbs_add(l, t.skip(x))
        },
        InstructionView::Copy { .. } => {
            &&& n <= l.len() && n <= s.len() && n <= t.len()
            &&& after.content() == before.content() + s.take(n)
            &&& l2 == l.skip(n) && s2 == s.skip(n) && t2 == t.skip(n)
            &&& forall|x: int|
                0 <= x < n ==> #[trigger] absorbs_copy(l.skip(x), s.skip(x), t.skip(x))
        },
    }
}

impl View for Instruction {
    type V = InstructionView;

    open spec fn view(&self) -> InstructionView {
        match self {
            Instruction::Remove { length } => InstructionView::Remove { length: *length as nat },
            Instruction::Add { content } => InstructionView::Add { content: content@ },
            Instruction::Copy { content } => InstructionView::Copy { content: content@ },
        }
    }
}

/// Appends `bytes` to `out`.
pub fn append_bytes(out: &mut Vec<u8>, bytes: &[u8])
    ensures
        final(out)@ == old(out)@ + bytes@,
{
    let mut i: usize = 0;
    while i < bytes.len()
        invariant
            i <= bytes@.len(),
            out@ == old(out)@ + bytes@.take(i as int),
        decreases bytes@.len() - i,
    {
        out.push(bytes[i]);
        i = i + 1;
        assert(out@ =~= old(out)@ + bytes@.take(i as int));
    }
    assert(bytes@.take(i as int) =~= bytes@);
}

/// Whether the next `content.len()` bytes of `source` are `content`.
fn starts_with(source: &ByteCursor, content: &[u8]) -> (r: bool)
    requires
        source.wf(),
        content@.len() <= source.rest().len(),
    ensures
        r == (source.rest().take(content@.len() as int) == content@),
{
    let mut i: usize = 0;
    while i < content.len()
        invariant
            source.wf(),
            i <= content@.len() <= source.rest().len(),
            source.rest().take(i as int) == content@.take(i as int),
        decreases content@.len() - i,
    {
        let b = source.peek_at(i);
        if b != Some(content[i]) {
            assert(source.rest().take(content@.len() as int)[i as int] != content@[i as int]);
            return false;
        }
        i = i + 1;
        assert(source.rest().take(i as int) =~= content@.take(i as int));
    }
    assert(content@.take(i as int) =~= content@);
    true
}

/// Whether a Remove would take the next source byte now.
pub(crate) fn absorbs_remove_now(lcs: &ByteCursor, source: &ByteCursor) -> (r: bool)
    requires
        lcs.wf(),
        source.wf(),
    ensures
        r == absorbs_remove(lcs.rest(), source.rest()),
{
    match source.peek() {
        None => false,
        Some(b) => match lcs.peek() {
            None => true,
            Some(c) => b != c,
        },
    }
}

/// Whether an Add would take the next target byte now.
fn absorbs_add_now(lcs: &ByteCursor, target: &ByteCursor) -> (r: bool)
    requires
        lcs.wf(),
        target.wf(),
    ensures
        r == absorbs_add(lcs.rest(), target.rest()),
{
    absorbs_remove_now(lcs, target)
}

/// Whether a Copy would take the next byte now.
fn absorbs_copy_now(lcs: &ByteCursor, source: &ByteCursor, target: &ByteCursor) -> (r: bool)
    requires
        lcs.wf(),
        source.wf(),
        target.wf(),
    ensures
        r == absorbs_copy(lcs.rest(), source.rest(), target.rest()),
{
    match (lcs.peek(), source.peek(), target.peek()) {
        (Some(a), Some(b), Some(c)) => a == b && a == c,
        _ => false,
    }
}

/// Greedy growth of an Add's content from the target.
fn fill_add(content: &mut Vec<u8>, lcs: &ByteCursor, target: &mut ByteCursor)
    requires
        old(content)@.len() <= MAX_INSTRUCTION_LENGTH as nat,
        lcs.wf(),
        old(target).wf(),
    ensures
        final(target).wf(),
        final(target).data() == old(target).data(),
        filled_from(
            InstructionView::Add { content: old(content)@ },
            InstructionView::Add { content: final(content)@ },
            lcs.rest(),
            Seq::empty(),
            old(target).rest(),
            lcs.rest(),
            Seq::empty(),
            final(target).rest(),
        ),
{
    let ghost t = target.rest();
    let ghost c0 = content@;
    while content.len() < MAX_INSTRUCTION_LENGTH as usize && absorbs_add_now(lcs, target)
        invariant
            lcs.wf(),
            target.wf(),
            target.data() == old(target).data(),
            t == old(target).rest(),
            c0 == old(content)@,
            c0.len() <= content@.len() <= MAX_INSTRUCTION_LENGTH as nat,
            content@.len() - c0.len() <= t.len(),
            content@ == c0 + t.take(content@.len() - c0.len()),
            target.rest() == t.skip(content@.len() - c0.len()),
            forall|x: int|
                0 <= x < content@.len() - c0.len() ==> #[trigger] absorbs_add(lcs.rest(), t.skip(x)),
        decreases MAX_INSTRUCTION_LENGTH as nat - content@.len(),
    {
        let ghost n = content@.len() - c0.len();
        let b = target.next().unwrap();
        content.push(b);
        assert(t.skip(n).skip(1) =~= t.skip(n + 1));
        assert(content@ =~= c0 + t.take(n + 1));
    }
}

/// Greedy growth of a Copy's content from the three cursors together.
fn fill_copy(
    content: &mut Vec<u8>,
    lcs: &mut ByteCursor,
    source: &mut ByteCursor,
    target: &mut ByteCursor,
)
    requires
        old(content)@.len() <= MAX_INSTRUCTION_LENGTH as nat,
        old(lcs).wf(),
        old(source).wf(),
        old(target).wf(),
    ensures
        final(lcs).wf(),
        final(source).wf(),
        final(target).wf(),
        final(lcs).data() == old(lcs).data(),
        final(source).data() == old(source).data(),
        final(target).data() == old(target).data(),
        filled_from(
            InstructionView::Copy { content: old(content)@ },
            InstructionView::Copy { content: final(content)@ },
            old(lcs).rest(),
            old(source).rest(),
            old(target).rest(),
            final(lcs).rest(),
            final(source).rest(),
            final(target).rest(),
        ),
{
    let ghost l = lcs.rest();
    let ghost s = source.rest();
    let ghost t = target.rest();
    let ghost c0 = content@;
    while content.len() < MAX_INSTRUCTION_LENGTH as usize && absorbs_copy_now(lcs, source, target)
        invariant
            lcs.wf(),
            source.wf(),
            target.wf(),
            lcs.data() == old(lcs).data(),
            source.data() == old(source).data(),
            target.data() == old(target).data(),
            l == old(lcs).rest(),
            s == old(source).rest(),
            t == old(target).rest(),
            c0 == old(content)@,
            c0.len() <= content@.len() <= MAX_INSTRUCTION_LENGTH as nat,
            content@.len() - c0.len() <= l.len(),
            content@.len() - c0.len() <= s.len(),
            content@.len() - c0.len() <= t.len(),
            content@ == c0 + s.take(content@.len() - c0.len()),
            lcs.rest() == l.skip(content@.len() - c0.len()),
            source.rest() == s.skip(content@.len() - c0.len()),
            target.rest() == t.skip(content@.len() - c0.len()),
            forall|x: int|
                0 <= x < content@.len() - c0.len() ==> #[trigger] absorbs_copy(
                    l.skip(x),
                    s.skip(x),
                    t.skip(x),
                ),
        decreases MAX_INSTRUCTION_LENGTH as nat - content@.len(),
    {
        let ghost n = content@.len() - c0.len();
        lcs.next();
        target.next();
        let b = source.next().unwrap();
        content.push(b);
        assert(l.skip(n).skip(1) =~= l.skip(n + 1));
        assert(s.skip(n).skip(1) =~= s.skip(n + 1));
        assert(t.skip(n).skip(1) =~= t.skip(n + 1));
        assert(content@ =~= c0 + s.take(n + 1));
    }
}

impl Instruction {
    pub fn len(&self) -> (r: u8)
        requires
            self@.wf(),
        ensures
            r == self@.len(),
    {
        match self {
            Instruction::Remove { length } => *length,
            Instruction::Add { content } => content.len() as u8,
            Instruction::Copy { content } => content.len() as u8,
        }
    }

    pub fn is_empty(&self) -> (r: bool)
        requires
            self@.wf(),
        ensures
            r == (self@.len() == MIN_INSTRUCTION_LENGTH as nat),
    {
        self.len() == MIN_INSTRUCTION_LENGTH
    }

    pub fn is_full(&self) -> (r: bool)
        requires
            self@.wf(),
        ensures
            r == self@.is_full(),
    {
        self.len() == MAX_INSTRUCTION_LENGTH
    }

    /// Grows the instruction by one byte, unless it is already full.
    pub fn push(&mut self, byte: u8) -> (r: Result<(), InstructionError>)
        requires
            old(self)@.wf(),
        ensures
            final(self)@.wf(),
            old(self)@.is_full() ==> r == Err::<(), InstructionError>(
                InstructionError::ContentOverflow,
            ) && final(self)@ == old(self)@,
            !old(self)@.is_full() ==> r is Ok && final(self)@ == old(self)@.pushed(byte),
    {
        if self.is_full() {
            return Err(InstructionError::ContentOverflow);
        }
        match self {
            Instruction::Remove { length } => *length = *length + 1,
            Instruction::Add { content } => content.push(byte),
            Instruction::Copy { content } => content.push(byte),
        }
        Ok(())
    }

    fn sign(&self) -> (r: u8)
        ensures
            r == self@.sign(),
    {
        match self {
            Instruction::Remove { .. } => REMOVE_INSTRUCTION_SIGN,
            Instruction::Add { .. } => ADD_INSTRUCTION_SIGN,
            Instruction::Copy { .. } => COPY_INSTRUCTION_SIGN,
        }
    }

    /// Grows the instruction greedily from the backbone, source and target
    /// cursors, as far as its kind absorbs bytes and its capacity allows.
    pub fn fill(&mut self, lcs: &mut ByteCursor, source: &mut ByteCursor, target: &mut ByteCursor)
        requires
            old(self)@.wf(),
            old(lcs).wf(),
            old(source).wf(),
            old(target).wf(),
        ensures
            final(self)@.wf(),
            final(lcs).wf(),
            final(source).wf(),
            final(target).wf(),
            final(lcs).data() == old(lcs).data(),
            final(source).data() == old(source).data(),
            final(target).data() == old(target).data(),
            filled_from(
                old(self)@,
                final(self)@,
                old(lcs).rest(),
                old(source).rest(),
                old(target).rest(),
                final(lcs).rest(),
                final(source).rest(),
                final(target).rest(),
            ),
    {
        match self {
            Instruction::Remove { length } => {
                let mut r = RemoveInstruction::new(*length);
                r.fill(lcs, source, target);
                *length = r.len();
            },
            Instruction::Add { content } => fill_add(content, lcs, target),
            Instruction::Copy { content } => fill_copy(content, lcs, source, target),
        }
    }

    /// Replays the instruction: consumes from `source`, appends to `output`.
    ///
    /// On failure nothing is consumed or appended.
    pub fn apply(&self, source: &mut ByteCursor, output: &mut Vec<u8>) -> (r: Result<
        (),
        InstructionError,
    >)
        requires
            old(source).wf(),
        ensures
            final(source).wf(),
            final(source).data() == old(source).data(),
            match apply_instruction(old(output)@, old(source).rest(), self@) {
                Ok((o, s)) => r is Ok && final(output)@ == o && final(source).rest() == s,
                Err(e) => r == Err::<(), InstructionError>(e) && final(output)@ == old(output)@
                    && final(source).rest() == old(source).rest(),
            },
    {
        match self {
            Instruction::Remove { length } => RemoveInstruction::new(*length).apply(source, output),
            Instruction::Add { content } => {
                append_bytes(output, content.as_slice());
                Ok(())
            },
            Instruction::Copy { content } => {
                if source.remaining() < content.len() {
                    return Err(InstructionError::SourceUnderrun);
                }
                if !starts_with(source, content.as_slice()) {
                    return Err(InstructionError::ContentMismatch);
                }
                append_bytes(output, content.as_slice());
                source.advance(content.len());
                Ok(())
            },
        }
    }

    /// The wire form of the instruction.
    pub fn to_bytes(&self) -> (r: Vec<u8>)
        requires
            self@.wf(),
        ensures
            r@ == self@.to_bytes(),
    {
        match self {
            Instruction::Remove { length } => {
                let r = vec![REMOVE_INSTRUCTION_SIGN, *length];
                assert(r@ =~= self@.to_bytes());
                r
            },
            Instruction::Add { content } | Instruction::Copy { content } => {
                let mut bytes = vec![self.sign(), content.len() as u8];
                append_bytes(&mut bytes, content.as_slice());
                assert(bytes@ =~= self@.to_bytes());
                bytes
            },
        }
    }

    /// Reads one instruction from the front of `bytes`.
    ///
    /// On success the cursor has moved past exactly the instruction's bytes.
    pub fn try_from_bytes(bytes: &mut ByteCursor) -> (r: Result<Self, InstructionError>)
        requires
            old(bytes).wf(),
        ensures
            final(bytes).wf(),
            final(bytes).data() == old(bytes).data(),
            match r {
                Ok(v) => {
                    &&& parse_instruction(old(bytes).rest()) == Ok::<InstructionView, InstructionError>(v@)
                    &&& v@.wf()
                    &&& final(bytes).rest() == old(bytes).rest().skip(v@.to_bytes().len() as int)
                },
                Err(e) => parse_instruction(old(bytes).rest()) == Err::<InstructionView, InstructionError>(e),
            },
    {
        let ghost b = bytes.rest();
        let sign = match bytes.next() {
            Some(s) => s,
            None => return Err(InstructionError::MissingSign),
        };
        if sign != REMOVE_INSTRUCTION_SIGN && sign != ADD_INSTRUCTION_SIGN && sign
            != COPY_INSTRUCTION_SIGN {
            return Err(InstructionError::InvalidSign);
        }
        let length = match bytes.next() {
            Some(l) => l,
            None => return Err(InstructionError::MissingLength),
        };
        assert(bytes.rest() =~= b.skip(2));
        if sign == REMOVE_INSTRUCTION_SIGN {
            return Ok(Instruction::Remove { length });
        }
        if bytes.remaining() < length as usize {
            return Err(InstructionError::MissingContent);
        }
        let mut content: Vec<u8> = Vec::new();
        let mut i: usize = 0;
        while i < length as usize
            invariant
                bytes.wf(),
                bytes.data() == old(bytes).data(),
                i <= length,
                b.len() >= 2 + length,
                bytes.rest() == b.skip(2 + i),
                content@ == b.subrange(2, 2 + i),
            decreases length - i,
        {
            let byte = match bytes.next() {
                Some(x) => x,
                None => return Err(InstructionError::MissingContent),
            };
            content.push(byte);
            i = i + 1;
            assert(content@ =~= b.subrange(2, 2 + i));
            assert(bytes.rest() =~= b.skip(2 + i));
        }
        if sign == ADD_INSTRUCTION_SIGN {
            Ok(Instruction::Add { content })
        } else {
            Ok(Instruction::Copy { content })
        }
    }
}

impl ConvertBetweenBytes for Instruction {
    open spec fn encodable(&self) -> bool {
        self@.wf()
    }

    open spec fn spec_to_bytes(&self) -> Seq<u8> {
        self@.to_bytes()
    }

    open spec fn spec_from_bytes(bytes: Seq<u8>) -> Result<InstructionView, InstructionError> {
        parse_instruction(bytes)
    }

    fn to_bytes(&self) -> (r: Vec<u8>) {
        Instruction::to_bytes(self)
    }

    fn try_from_bytes(bytes: &mut ByteCursor) -> (r: Result<Self, InstructionError>) {
        Instruction::try_from_bytes(bytes)
    }
}

} // verus!
