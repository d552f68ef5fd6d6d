use vstd::prelude::*;

use crate::cursor::ByteCursor;
use crate::instruction_error::InstructionError;
use crate::instructions::{
    absorbs, absorbs_add, absorbs_copy, absorbs_remove, apply_instruction, filled_from,
    parse_instruction, Instruction, InstructionView,
};
use crate::lcs::{
    is_subseq, lcs_of, lemma_lcs_of, lemma_lcs_of_self, lemma_subseq_match_run,
    lemma_subseq_skip_run, Lcs,
};

verus! {

/// The mathematical value of an instruction stream.
pub open spec fn stream_view(s: Seq<Instruction>) -> Seq<InstructionView> {
    s.map_values(|i: Instruction| i@)
}

/// Every instruction of the stream fits the capacity.
pub open spec fn stream_wf(s: Seq<InstructionView>) -> bool {
    forall|x: int| 0 <= x < s.len() ==> #[trigger] s[x].wf()
}

/// The wire form of a stream: the instructions' wire forms, in order.
pub open spec fn encode_stream(s: Seq<InstructionView>) -> Seq<u8>
    decreases s.len(),
{
    if s.len() == 0 {
        Seq::empty()
    } else {
        s[0].to_bytes() + encode_stream(s.skip(1))
    }
}

/// Puts `prefix` before a decoded stream; an error stays as it is.
pub open spec fn prepend_ok(
    prefix: Seq<InstructionView>,
    r: Result<Seq<InstructionView>, InstructionError>,
) -> Result<Seq<InstructionView>, InstructionError> {
    match r {
        Ok(s) => Ok(prefix + s),
        Err(e) => Err(e),
    }
}

/// Reads instructions until the input is exhausted; the first malformed
/// instruction decides the error.
pub open spec fn decode_stream(b: Seq<u8>) -> Result<Seq<InstructionView>, InstructionError>
    decreases b.len(),
{
    if b.len() == 0 {
        Ok(Seq::empty())
    } else {
        match parse_instruction(b) {
            Ok(v) => prepend_ok(seq![v], decode_stream(b.skip(v.to_bytes().len() as int))),
            Err(e) => Err(e),
        }
    }
}

/// Replays a stream on `source`: the output and the source bytes left, or
/// the first instruction's error.
pub open spec fn replay(source: Seq<u8>, s: Seq<InstructionView>) -> Result<
    (Seq<u8>, Seq<u8>),
    InstructionError,
>
    decreases s.len(),
{
    if s.len() == 0 {
        Ok((Seq::empty(), source))
    } else {
        match replay(source, s.drop_last()) {
            Ok((output, rest)) => apply_instruction(output, rest, s.last()),
            Err(e) => Err(e),
        }
    }
}

/// What replaying a stream on `source` yields.
pub open spec fn apply_stream(source: Seq<u8>, s: Seq<InstructionView>) -> Result<
    Seq<u8>,
    InstructionError,
> {
    match replay(source, s) {
        Ok((output, _)) => Ok(output),
        Err(e) => Err(e),
    }
}

/// The Copy contents of a stream, concatenated in order.
pub open spec fn copied(s: Seq<InstructionView>) -> Seq<u8>
    decreases s.len(),
{
    if s.len() == 0 {
        Seq::empty()
    } else if s.last() is Copy {
        copied(s.drop_last()) + s.last().content()
    } else {
        copied(s.drop_last())
    }
}

/// No instruction is empty, none exceeds the capacity, and two neighbours
/// of the same kind occur only where the first one is full: a run longer
/// than the capacity is split into full instructions and a last one.
pub open spec fn split_at_capacity(s: Seq<InstructionView>) -> bool {
    &&& forall|x: int| 0 <= x < s.len() ==> #[trigger] s[x].wf() && s[x].len() > 0
    &&& forall|x: int|
        0 <= x < s.len() - 1 && #[trigger] s[x].same_kind(s[x + 1]) ==> s[x].is_full()
}

/// Source bytes that a stream skips: those of its Remove and Copy
/// instructions.
pub open spec fn consumed(o: Seq<InstructionView>) -> nat
    decreases o.len(),
{
    if o.len() == 0 {
        0
    } else if o.last() is Add {
        consumed(o.drop_last())
    } else {
        consumed(o.drop_last()) + o.last().len()
    }
}

/// Output bytes that a stream emits: those of its Add and Copy instructions.
pub open spec fn produced(o: Seq<InstructionView>) -> nat
    decreases o.len(),
{
    if o.len() == 0 {
        0
    } else {
        produced(o.drop_last()) + o.last().content().len()
    }
}

/// The empty instruction of `v`'s kind.
pub open spec fn empty_of(v: InstructionView) -> InstructionView {
    match v {
        InstructionView::Remove { .. } => InstructionView::Remove { length: 0 },
        InstructionView::Add { .. } => InstructionView::Add { content: Seq::empty() },
        InstructionView::Copy { .. } => InstructionView::Copy { content: Seq::empty() },
    }
}

/// Instruction `x` of `o` is its kind's greedy fill, starting from where the
/// instructions before it left the backbone `l`, source `s` and target `t`.
pub open spec fn filled_at(
    l: Seq<u8>,
    s: Seq<u8>,
    t: Seq<u8>,
    o: Seq<InstructionView>,
    x: int,
) -> bool {
    let p = o.take(x);
    let q = o.take(x + 1);
    filled_from(
        empty_of(o[x]),
        o[x],
        l.skip(copied(p).len() as int),
        s.skip(consumed(p) as int),
        t.skip(produced(p) as int),
        l.skip(copied(q).len() as int),
        s.skip(consumed(q) as int),
        t.skip(produced(q) as int),
    )
}

/// Every instruction is a greedy fill, and between two copies the removals
/// come before the additions.
pub open spec fn greedy_stream(l: Seq<u8>, s: Seq<u8>, t: Seq<u8>, o: Seq<InstructionView>) -> bool {
    &&& forall|x: int| 0 <= x < o.len() ==> #[trigger] filled_at(l, s, t, o, x)
    &&& forall|x: int| 0 <= x < o.len() - 1 && #[trigger] o[x] is Add ==> !(o[x + 1] is Remove)
}

/// The state of a diff after the backbone `l`, source `s` and target `t` have
/// been consumed up to `i`, `j` and `k`, and `out` emitted.
pub open spec fn diff_progress(
    l: Seq<u8>,
    s: Seq<u8>,
    t: Seq<u8>,
    i: int,
    j: int,
    k: int,
    out: Seq<InstructionView>,
) -> bool {
    &&& 0 <= i <= l.len() && 0 <= j <= s.len() && 0 <= k <= t.len()
    &&& is_subseq(l.skip(i), s.skip(j))
    &&& is_subseq(l.skip(i), t.skip(k))
    &&& replay(s, out) == Ok::<(Seq<u8>, Seq<u8>), InstructionError>((t.take(k), s.skip(j)))
    &&& copied(out) == l.take(i)
    &&& consumed(out) == j
    &&& produced(out) == k
    &&& split_at_capacity(out)
    &&& greedy_stream(l, s, t, out)
    &&& (out.len() > 0 && out.last() is Add) ==> !absorbs_remove(l.skip(i), s.skip(j))
    &&& (out.len() > 0 && !out.last().is_full()) ==> !absorbs(
        out.last(),
        l.skip(i),
        s.skip(j),
        t.skip(k),
    )
    &&& s == t ==> (l == s && i == j && j == k && forall|x: int|
        0 <= x < out.len() ==> #[trigger] out[x] is Copy)
}

/// A stream of non-empty Copy instructions copies at least one byte per
/// instruction.
proof fn lemma_copied_len(s: Seq<InstructionView>)
    requires
        forall|x: int| 0 <= x < s.len() ==> #[trigger] s[x] is Copy && s[x].len() > 0,
    ensures
        copied(s).len() >= s.len(),
    decreases s.len(),
{
    if s.len() > 0 {
        assert forall|x: int| 0 <= x < s.drop_last().len() implies #[trigger] s.drop_last()[x] is Copy
            && s.drop_last()[x].len() > 0 by {
            assert(s.drop_last()[x] == s[x]);
        }
        lemma_copied_len(s.drop_last());
        assert(s.last() == s[s.len() - 1]);
    }
}

/// Appending a non-empty, greedily filled instruction keeps the diff state.
proof fn lemma_push_keeps_progress(
    l: Seq<u8>,
    s: Seq<u8>,
    t: Seq<u8>,
    i: int,
    j: int,
    k: int,
    out: Seq<InstructionView>,
    fresh: InstructionView,
    v: InstructionView,
    i2: int,
    j2: int,
    k2: int,
)
    requires
        diff_progress(l, s, t, i, j, k, out),
        fresh.len() == 0,
        v.len() > 0,
        0 <= i2 <= l.len() && 0 <= j2 <= s.len() && 0 <= k2 <= t.len(),
        filled_from(fresh, v, l.skip(i), s.skip(j), t.skip(k), l.skip(i2), s.skip(j2), t.skip(k2)),
        v is Add ==> !absorbs_remove(l.skip(i), s.skip(j)),
    ensures
        diff_progress(l, s, t, i2, j2, k2, out.push(v)),
        i <= i2 && j <= j2 && k <= k2,
{
    let n = v.len() as int;
    let li = l.skip(i);
    let sj = s.skip(j);
    let tk = t.skip(k);
    let o2 = out.push(v);
    assert(o2.drop_last() =~= out);
    assert(o2.last() == v);
    assert(li.skip(0) =~= li);
    assert(sj.skip(0) =~= sj);
    assert(tk.skip(0) =~= tk);
    assert(absorbs(v, li, sj, tk));
    match fresh {
        InstructionView::Remove { .. } => {
            assert(sj.skip(n).len() == s.skip(j2).len());
            assert(j2 == j + n);
            assert(sj.skip(n) =~= s.skip(j2));
            assert(i2 == i && k2 == k) by {
                assert(l.skip(i2).len() == li.len());
                assert(t.skip(k2).len() == tk.len());
            }
            assert forall|x: int| 0 <= x < n implies li.len() == 0 || #[trigger] sj[x] != li[0] by {
                assert(absorbs_remove(li, sj.skip(x)));
                assert(sj.skip(x)[0] == sj[x]);
            }
            lemma_subseq_skip_run(li, sj, n as nat);
            assert(copied(o2) == copied(out));
        },
        InstructionView::Add { .. } => {
            assert(tk.skip(n).len() == t.skip(k2).len());
            assert(k2 == k + n);
            assert(i2 == i && j2 == j) by {
                assert(l.skip(i2).len() == li.len());
                assert(s.skip(j2).len() == sj.len());
            }
            assert(v.content() =~= tk.take(n));
            assert forall|x: int| 0 <= x < n implies li.len() == 0 || #[trigger] tk[x] != li[0] by {
                assert(absorbs_add(li, tk.skip(x)));
                assert(tk.skip(x)[0] == tk[x]);
            }
            lemma_subseq_skip_run(li, tk, n as nat);
            assert(tk.skip(n) =~= t.skip(k2));
            assert(t.take(k) + tk.take(n) =~= t.take(k2));
            assert(copied(o2) == copied(out));
        },
        InstructionView::Copy { .. } => {
            assert(li.skip(n).len() == l.skip(i2).len());
            assert(sj.skip(n).len() == s.skip(j2).len());
            assert(tk.skip(n).len() == t.skip(k2).len());
            assert(i2 == i + n && j2 == j + n && k2 == k + n);
            assert(sj.skip(n) =~= s.skip(j2));
            assert forall|x: int| 0 <= x < n implies #[trigger] li[x] == sj[x] && li[x] == tk[x] by {
                assert(absorbs_copy(li.skip(x), sj.skip(x), tk.skip(x)));
                assert(li.skip(x)[0] == li[x]);
                assert(sj.skip(x)[0] == sj[x]);
                assert(tk.skip(x)[0] == tk[x]);
            }
            assert(v.content() =~= sj.take(n));
            assert forall|x: int| 0 <= x < n implies #[trigger] sj[x] == tk[x] by {
                assert(li[x] == sj[x]);
            }
            assert(sj.take(n) =~= tk.take(n));
            assert(sj.take(n) =~= li.take(n));
            assert(sj.take(n) =~= sj.take(v.content().len() as int));
            lemma_subseq_match_run(li, sj, n as nat);
            assert forall|x: int| 0 <= x < n implies #[trigger] li[x] == tk[x] by {}
            lemma_subseq_match_run(li, tk, n as nat);
            assert(t.take(k) + tk.take(n) =~= t.take(k2));
            assert(l.take(i) + li.take(n) =~= l.take(i2));
            assert(li.skip(n) =~= l.skip(i2));
            assert(tk.skip(n) =~= t.skip(k2));
        },
    }
    assert forall|x: int| 0 <= x < o2.len() implies #[trigger] o2[x].wf() && o2[x].len() > 0 by {
        if x < out.len() {
            assert(o2[x] == out[x]);
        } else {
            assert(o2[x] == v);
        }
    }
    assert forall|x: int| 0 <= x < o2.len() - 1 && #[trigger] o2[x].same_kind(o2[x + 1]) implies o2[
        x
    ].is_full() by {
        if x < out.len() - 1 {
            assert(o2[x] == out[x] && o2[x + 1] == out[x + 1]);
        } else {
            assert(o2[x] == out.last() && o2[x + 1] == v);
            if !out.last().is_full() {
                assert(!absorbs(out.last(), li, sj, tk));
            }
        }
    }
    assert(consumed(o2) == j2);
    assert(produced(o2) == k2);
    assert(copied(o2).len() == i2);
    assert(empty_of(v) =~= fresh) by {
        assert(fresh.same_kind(v));
        match fresh {
            InstructionView::Remove { .. } => {},
            InstructionView::Add { content } => {
                assert(content =~= Seq::<u8>::empty());
            },
            InstructionView::Copy { content } => {
                assert(content =~= Seq::<u8>::empty());
            },
        }
    }
    assert forall|x: int| 0 <= x < o2.len() implies #[trigger] filled_at(l, s, t, o2, x) by {
        if x < out.len() {
            assert(o2.take(x) =~= out.take(x));
            assert(o2.take(x + 1) =~= out.take(x + 1));
            assert(o2[x] == out[x]);
            assert(filled_at(l, s, t, out, x));
        } else {
            assert(o2.take(x) =~= out);
            assert(o2.take(x + 1) =~= o2);
            assert(out.take(out.len() as int) =~= out);
        }
    }
    assert forall|x: int| 0 <= x < o2.len() - 1 && #[trigger] o2[x] is Add implies !(o2[x
        + 1] is Remove) by {
        if x < out.len() - 1 {
            assert(o2[x] == out[x] && o2[x + 1] == out[x + 1]);
        } else {
            assert(o2[x] == out.last() && o2[x + 1] == v);
        }
    }
    if s == t {
        assert(li == sj && sj == tk);
        assert(fresh is Copy);
        assert(i2 == j2 && j2 == k2);
        assert forall|x: int| 0 <= x < o2.len() implies #[trigger] o2[x] is Copy by {
            if x < out.len() {
                assert(o2[x] == out[x]);
            }
        }
    }
}

/// A fresh, empty instruction of the same kind as `kind`.
fn empty_like(kind: &Instruction) -> (r: Instruction)
    ensures
        r@.len() == 0,
        r@.same_kind(kind@),
{
    match kind {
        Instruction::Remove { .. } => Instruction::Remove { length: 0 },
        Instruction::Add { .. } => Instruction::Add { content: Vec::new() },
        Instruction::Copy { .. } => Instruction::Copy { content: Vec::new() },
    }
}

/// Emits the current run of `kind`'s bytes, split into instructions of at
/// most the capacity, and stops where that kind absorbs no more.
fn push_run(
    out: &mut Vec<Instruction>,
    kind: &Instruction,
    lcs: &mut ByteCursor,
    source: &mut ByteCursor,
    target: &mut ByteCursor,
)
    requires
        old(lcs).wf(),
        old(source).wf(),
        old(target).wf(),
        diff_progress(
            old(lcs).data(),
            old(source).data(),
            old(target).data(),
            old(lcs).pos() as int,
            old(source).pos() as int,
            old(target).pos() as int,
            stream_view(old(out)@),
        ),
        kind@ is Add ==> !absorbs_remove(old(lcs).rest(), old(source).rest()),
    ensures
        final(lcs).wf(),
        final(source).wf(),
        final(target).wf(),
        final(lcs).data() == old(lcs).data(),
        final(source).data() == old(source).data(),
        final(target).data() == old(target).data(),
        diff_progress(
            final(lcs).data(),
            final(source).data(),
            final(target).data(),
            final(lcs).pos() as int,
            final(source).pos() as int,
            final(target).pos() as int,
            stream_view(final(out)@),
        ),
        old(lcs).pos() <= final(lcs).pos(),
        old(source).pos() <= final(source).pos(),
        old(target).pos() <= final(target).pos(),
        kind@ is Remove ==> final(lcs).pos() == old(lcs).pos() && final(target).pos() == old(
            target,
        ).pos(),
        kind@ is Add ==> final(lcs).pos() == old(lcs).pos() && final(source).pos() == old(
            source,
        ).pos(),
        !absorbs(kind@, final(lcs).rest(), final(source).rest(), final(target).rest()),
{
    let ghost l = lcs.data();
    let ghost s = source.data();
    let ghost t = target.data();
    let ghost i0 = lcs.pos();
    let ghost j0 = source.pos();
    let ghost k0 = target.pos();
    let mut done = false;
    while !done
        invariant
            lcs.wf(),
            source.wf(),
            target.wf(),
            lcs.data() == l,
            source.data() == s,
            target.data() == t,
            diff_progress(
                l,
                s,
                t,
                lcs.pos() as int,
                source.pos() as int,
                target.pos() as int,
                stream_view(out@),
            ),
            i0 <= lcs.pos() && j0 <= source.pos() && k0 <= target.pos(),
            kind@ is Remove ==> lcs.pos() == i0 && target.pos() == k0,
            kind@ is Add ==> lcs.pos() == i0 && source.pos() == j0,
            done ==> !absorbs(kind@, lcs.rest(), source.rest(), target.rest()),
            kind@ is Add ==> !absorbs_remove(lcs.rest(), source.rest()),
        decreases l.len() - lcs.pos() + s.len() - source.pos() + t.len() - target.pos() + if done {
            0int
        } else {
            1int
        },
    {
        let ghost before = stream_view(out@);
        let ghost (i, j, k) = (lcs.pos() as int, source.pos() as int, target.pos() as int);
        let mut ins = empty_like(kind);
        let ghost fresh = ins@;
        ins.fill(lcs, source, target);
        proof {
            if kind@ is Add {
                assert(lcs.rest() == l.skip(i) && source.rest() == s.skip(j));
            }
        }
        if ins.is_empty() {
            done = true;
            proof {
                assert(lcs.rest().len() == l.skip(i).len());
                assert(source.rest().len() == s.skip(j).len());
                assert(target.rest().len() == t.skip(k).len());
            }
        } else {
            let full = ins.is_full();
            proof {
                lemma_push_keeps_progress(
                    l,
                    s,
                    t,
                    i,
                    j,
                    k,
                    before,
                    fresh,
                    ins@,
                    lcs.pos() as int,
                    source.pos() as int,
                    target.pos() as int,
                );
            }
            out.push(ins);
            assert(stream_view(out@) =~= before.push(ins@));
            if !full {
                done = true;
            }
        }
    }
}

/// The edit script that turns `source` into `target`.
///
/// The bytes of a longest common subsequence of the two are copied; the
/// other source bytes are removed and the other target bytes added, each
/// run split into instructions of at most the capacity.
pub fn diff(source: &[u8], target: &[u8]) -> (r: Vec<Instruction>)
    requires
        target@.len() < usize::MAX,
    ensures
        apply_stream(source@, stream_view(r@)) == Ok::<Seq<u8>, InstructionError>(target@),
        replay(source@, stream_view(r@)) == Ok::<(Seq<u8>, Seq<u8>), InstructionError>(
            (target@, Seq::empty()),
        ),
        copied(stream_view(r@)) == lcs_of(source@, target@),
        split_at_capacity(stream_view(r@)),
        greedy_stream(lcs_of(source@, target@), source@, target@, stream_view(r@)),
        source@ == target@ ==> copied(stream_view(r@)) == source@ && forall|x: int|
            0 <= x < r@.len() ==> #[trigger] r@[x]@ is Copy,
        source@.len() == 0 && target@.len() == 0 ==> r@.len() == 0,
{
    let ghost s = source@;
    let ghost t = target@;
    let backbone = Lcs::new(source, target).subsequence();
    let ghost l = backbone@;
    proof {
        lemma_lcs_of(s, t);
        if s == t {
            lemma_lcs_of_self(s);
        }
        assert(l.skip(0) =~= l);
        assert(s.skip(0) =~= s);
        assert(t.skip(0) =~= t);
        assert(t.take(0) =~= Seq::<u8>::empty());
        assert(l.take(0) =~= Seq::<u8>::empty());
    }
    let mut lcs = ByteCursor::new(backbone.as_slice());
    let mut src = ByteCursor::new(source);
    let mut tgt = ByteCursor::new(target);
    let mut out: Vec<Instruction> = Vec::new();
    assert(stream_view(out@) =~= Seq::<InstructionView>::empty());
    let remove = Instruction::Remove { length: 0 };
    let add = Instruction::Add { content: Vec::new() };
    let copy = Instruction::Copy { content: Vec::new() };
    while !(lcs.is_done() && src.is_done() && tgt.is_done())
        invariant
            lcs.wf(),
            src.wf(),
            tgt.wf(),
            lcs.data() == l,
            src.data() == s,
            tgt.data() == t,
            l == lcs_of(s, t),
            remove@ is Remove,
            add@ is Add,
            copy@ is Copy,
            diff_progress(
                l,
                s,
                t,
                lcs.pos() as int,
                src.pos() as int,
                tgt.pos() as int,
                stream_view(out@),
            ),
        decreases l.len() - lcs.pos() + s.len() - src.pos() + t.len() - tgt.pos(),
    {
        let ghost (i, j, k) = (lcs.pos(), src.pos(), tgt.pos());
        push_run(&mut out, &remove, &mut lcs, &mut src, &mut tgt);
        push_run(&mut out, &add, &mut lcs, &mut src, &mut tgt);
        push_run(&mut out, &copy, &mut lcs, &mut src, &mut tgt);
        proof {
            // A round that moves no cursor finds all three exhausted.
            if lcs.pos() == i && src.pos() == j && tgt.pos() == k {
                let li = l.skip(i as int);
                let sj = s.skip(j as int);
                let tk = t.skip(k as int);
                assert(!absorbs_remove(li, sj));
                assert(!absorbs_add(li, tk));
                assert(!absorbs_copy(li, sj, tk));
                if li.len() > 0 {
                    assert(sj.len() > 0 && tk.len() > 0);
                }
                assert(false);
            }
        }
    }
    proof {
        let o = stream_view(out@);
        assert forall|x: int| 0 <= x < out@.len() implies #[trigger] out@[x]@ == o[x] by {}
        assert(l.take(l.len() as int) =~= l);
        assert(t.take(t.len() as int) =~= t);
        assert(s.skip(s.len() as int) =~= Seq::<u8>::empty());
        if s.len() == 0 && t.len() == 0 {
            assert(s =~= t);
            assert forall|x: int| 0 <= x < o.len() implies #[trigger] o[x] is Copy && o[x].len()
                > 0 by {
                assert(o[x].wf() && o[x].len() > 0);
            }
            lemma_copied_len(o);
        }
    }
    out
}

/// Encoding a stream with one more instruction appends that instruction's
/// wire form.
pub proof fn lemma_encode_append(s: Seq<InstructionView>, v: InstructionView)
    ensures
        encode_stream(s.push(v)) == encode_stream(s) + v.to_bytes(),
    decreases s.len(),
{
    if s.len() == 0 {
        assert(s.push(v).skip(1) =~= Seq::<InstructionView>::empty());
        assert(encode_stream(s.push(v).skip(1)) == Seq::<u8>::empty());
        assert(encode_stream(s.push(v)) =~= v.to_bytes());
    } else {
        lemma_encode_append(s.skip(1), v);
        assert(s.push(v).skip(1) =~= s.skip(1).push(v));
        assert(encode_stream(s.push(v)) =~= encode_stream(s) + v.to_bytes());
    }
}

/// An instruction that fits the capacity reads back from its wire form,
/// whatever follows it.
pub proof fn lemma_parse_to_bytes(v: InstructionView, rest: Seq<u8>)
    requires
        v.wf(),
    ensures
        parse_instruction(v.to_bytes() + rest) == Ok::<InstructionView, InstructionError>(v),
        (v.to_bytes() + rest).skip(v.to_bytes().len() as int) == rest,
{
    let b = v.to_bytes() + rest;
    assert(b.skip(v.to_bytes().len() as int) =~= rest);
    assert(b[1] as nat == v.len());
    match v {
        InstructionView::Remove { length } => {},
        InstructionView::Add { content } => {
            assert(b.subrange(2, 2 + b[1]) =~= content);
        },
        InstructionView::Copy { content } => {
            assert(b.subrange(2, 2 + b[1]) =~= content);
        },
    }
}

/// Decoding the encoding of a stream whose instructions fit the capacity
/// gives the stream back.
pub proof fn lemma_codec_round_trip(s: Seq<InstructionView>)
    requires
        stream_wf(s),
    ensures
        decode_stream(encode_stream(s)) == Ok::<Seq<InstructionView>, InstructionError>(s),
    decreases s.len(),
{
    if s.len() > 0 {
        let rest = encode_stream(s.skip(1));
        assert(stream_wf(s.skip(1))) by {
            assert forall|x: int| 0 <= x < s.skip(1).len() implies #[trigger] s.skip(1)[x].wf() by {
                assert(s.skip(1)[x] == s[x + 1]);
            }
        }
        lemma_codec_round_trip(s.skip(1));
        assert(s[0].wf());
        lemma_parse_to_bytes(s[0], rest);
        let b = s[0].to_bytes() + rest;
        assert(encode_stream(s) == b);
        assert(b.len() > 0);
        assert(decode_stream(b) == prepend_ok(seq![s[0]], decode_stream(rest)));
        assert(seq![s[0]] + s.skip(1) =~= s);
    } else {
        assert(encode_stream(s) == Seq::<u8>::empty());
        assert(s =~= Seq::<InstructionView>::empty());
    }
}

/// Once a prefix of a stream fails to replay, the whole stream fails the
/// same way.
pub proof fn lemma_replay_error_prefix(source: Seq<u8>, s: Seq<InstructionView>, n: int)
    requires
        0 <= n <= s.len(),
        replay(source, s.take(n)) is Err,
    ensures
        replay(source, s) == replay(source, s.take(n)),
    decreases s.len() - n,
{
    if n < s.len() {
        assert(s.take(n + 1).drop_last() =~= s.take(n));
        lemma_replay_error_prefix(source, s, n + 1);
    } else {
        assert(s.take(n) =~= s);
    }
}

/// The wire form of a stream.
pub fn encode(stream: &[Instruction]) -> (r: Vec<u8>)
    requires
        stream_wf(stream_view(stream@)),
    ensures
        r@ == encode_stream(stream_view(stream@)),
{
    let ghost sv = stream_view(stream@);
    let mut out: Vec<u8> = Vec::new();
    let mut i: usize = 0;
    assert(sv.take(0) =~= Seq::<InstructionView>::empty());
    while i < stream.len()
        invariant
            sv == stream_view(stream@),
            stream_wf(sv),
            i <= stream@.len(),
            out@ == encode_stream(sv.take(i as int)),
        decreases stream@.len() - i,
    {
        assert(sv[i as int].wf());
        let bytes = stream[i].to_bytes();
        crate::instructions::append_bytes(&mut out, bytes.as_slice());
        proof {
            lemma_encode_append(sv.take(i as int), sv[i as int]);
            assert(sv.take(i as int).push(sv[i as int]) =~= sv.take(i + 1));
        }
        i = i + 1;
    }
    assert(sv.take(i as int) =~= sv);
    out
}

/// Reads a whole stream; an empty input is an empty stream.
pub fn decode(bytes: &[u8]) -> (r: Result<Vec<Instruction>, InstructionError>)
    ensures
        match r {
            Ok(v) => decode_stream(bytes@) == Ok::<Seq<InstructionView>, InstructionError>(
                stream_view(v@),
            ) && stream_wf(stream_view(v@)),
            Err(e) => decode_stream(bytes@) == Err::<Seq<InstructionView>, InstructionError>(e),
        },
{
    let mut cursor = ByteCursor::new(bytes);
    let mut out: Vec<Instruction> = Vec::new();
    assert(stream_view(out@) =~= Seq::<InstructionView>::empty());
    assert(Seq::<InstructionView>::empty() + Seq::<InstructionView>::empty() =~= Seq::<
        InstructionView,
    >::empty());
    while !cursor.is_done()
        invariant
            cursor.wf(),
            cursor.data() == bytes@,
            stream_wf(stream_view(out@)),
            decode_stream(bytes@) == prepend_ok(stream_view(out@), decode_stream(cursor.rest())),
        decreases cursor.rest().len(),
    {
        let ghost rest = cursor.rest();
        let ghost before = stream_view(out@);
        match Instruction::try_from_bytes(&mut cursor) {
            Ok(v) => {
                proof {
                    assert(v@.to_bytes().len() >= 2);
                }
                out.push(v);
                assert(stream_view(out@) =~= before + seq![v@]);
                proof {
                    match decode_stream(cursor.rest()) {
                        Ok(s) => {
                            assert(before + (seq![v@] + s) =~= (before + seq![v@]) + s);
                        },
                        Err(_) => {},
                    }
                }
            },
            Err(e) => {
                return Err(e);
            },
        }
    }
    assert(stream_view(out@) + Seq::<InstructionView>::empty() =~= stream_view(out@));
    Ok(out)
}

/// Replays `stream` on `source`, checking each Copy against the source bytes
/// it skips. Source bytes left after the last instruction are ignored.
pub fn apply(source: &[u8], stream: &[Instruction]) -> (r: Result<Vec<u8>, InstructionError>)
    ensures
        match r {
            Ok(o) => apply_stream(source@, stream_view(stream@)) == Ok::<
                Seq<u8>,
                InstructionError,
            >(o@),
            Err(e) => apply_stream(source@, stream_view(stream@)) == Err::<
                Seq<u8>,
                InstructionError,
            >(e),
        },
{
    let ghost sv = stream_view(stream@);
    let mut cursor = ByteCursor::new(source);
    let mut out: Vec<u8> = Vec::new();
    let mut i: usize = 0;
    assert(sv.take(0) =~= Seq::<InstructionView>::empty());
    while i < stream.len()
        invariant
            sv == stream_view(stream@),
            i <= stream@.len(),
            cursor.wf(),
            cursor.data() == source@,
            replay(source@, sv.take(i as int)) == Ok::<(Seq<u8>, Seq<u8>), InstructionError>(
                (out@, cursor.rest()),
            ),
        decreases stream@.len() - i,
    {
        assert(sv.take(i + 1).drop_last() =~= sv.take(i as int));
        assert(sv.take(i + 1).last() == stream@[i as int]@);
        match stream[i].apply(&mut cursor, &mut out) {
            Ok(()) => {},
            Err(e) => {
                proof {
                    lemma_replay_error_prefix(source@, sv, i + 1);
                }
                return Err(e);
            },
        }
        i = i + 1;
    }
    assert(sv.take(i as int) =~= sv);
    Ok(out)
}

} // verus!
