//! The wire as a whole: a run of frames, and how a reader finds the frames
//! again in the bytes that have reached it so far.

use crate::frame::{frame, frame_len, lemma_prefix_roundtrip, MAX_NOISE_PKG_LEN};
use vstd::prelude::*;

verus! {

/// The parts, one after the other.
pub open spec fn concat(parts: Seq<Seq<u8>>) -> Seq<u8>
    decreases parts.len(),
{
    if parts.len() == 0 {
        Seq::empty()
    } else {
        concat(parts.drop_last()) + parts.last()
    }
}

/// The bytes that carry the given frame bodies, in order.
pub open spec fn wire(bodies: Seq<Seq<u8>>) -> Seq<u8>
    decreases bodies.len(),
{
    if bodies.len() == 0 {
        Seq::empty()
    } else {
        wire(bodies.drop_last()) + frame(bodies.last())
    }
}

/// The bytes start with a whole frame.
pub open spec fn complete(w: Seq<u8>) -> bool {
    w.len() >= 2 && w.len() >= 2 + frame_len(w)
}

/// The bodies of the whole frames in `w`, in order, but for the empty ones,
/// which a reader passes over.
pub open spec fn bodies(w: Seq<u8>) -> Seq<Seq<u8>>
    decreases w.len(),
{
    if complete(w) {
        let n = frame_len(w);
        let rest = bodies(w.subrange(2 + n, w.len() as int));
        if n == 0 {
            rest
        } else {
            seq![w.subrange(2, 2 + n)] + rest
        }
    } else {
        Seq::empty()
    }
}

/// What is left of `w` behind its whole frames: the beginning of a frame
/// that is not all there yet.
pub open spec fn tail(w: Seq<u8>) -> Seq<u8>
    decreases w.len(),
{
    if complete(w) {
        tail(w.subrange(2 + frame_len(w), w.len() as int))
    } else {
        w
    }
}

/// Every body is a ciphertext that a frame can carry and that a reader does
/// not pass over.
pub open spec fn framable(bodies: Seq<Seq<u8>>) -> bool {
    forall|i: int| 0 <= i < bodies.len() ==> 0 < (#[trigger] bodies[i]).len() <= MAX_NOISE_PKG_LEN
}

/// Bytes that arrive later do not change the frames found so far: they only
/// extend what was left over.
pub proof fn lemma_bodies_append(w: Seq<u8>, d: Seq<u8>)
    ensures
        bodies(w + d) == bodies(w) + bodies(tail(w) + d),
        tail(w + d) == tail(tail(w) + d),
    decreases w.len(),
{
    if complete(w) {
        let n = frame_len(w);
        let rest = w.subrange(2 + n, w.len() as int);
        assert((w + d).subrange(2 + n, (w + d).len() as int) =~= rest + d);
        assert((w + d).subrange(2, 2 + n) =~= w.subrange(2, 2 + n));
        assert(frame_len(w + d) == n);
        assert(complete(w + d));
        lemma_bodies_append(rest, d);
        assert(bodies(w + d) =~= bodies(w) + bodies(tail(w) + d));
    } else {
        assert(bodies(w) + bodies(w + d) =~= bodies(w + d));
    }
}

/// A reader of one frame finds its body and has nothing left over; an empty
/// frame it passes over.
pub proof fn lemma_bodies_of_frame(body: Seq<u8>)
    requires
        body.len() <= MAX_NOISE_PKG_LEN,
    ensures
        bodies(frame(body)) == if body.len() == 0 {
            Seq::<Seq<u8>>::empty()
        } else {
            seq![body]
        },
        tail(frame(body)) == Seq::<u8>::empty(),
{
    let w = frame(body);
    lemma_prefix_roundtrip(body.len() as int);
    assert(frame_len(w) == body.len());
    assert(complete(w));
    let rest = w.subrange(2 + body.len() as int, w.len() as int);
    assert(rest =~= Seq::<u8>::empty());
    assert(!complete(rest));
    assert(bodies(rest) =~= Seq::<Seq<u8>>::empty());
    assert(tail(rest) =~= Seq::<u8>::empty());
    assert(w.subrange(2, 2 + body.len() as int) =~= body);
    if body.len() != 0 {
        assert(bodies(w) =~= seq![body]);
    }
}

/// The beginning of a frame holds no frame, and all of it is left over.
pub proof fn lemma_bodies_of_part(body: Seq<u8>, part: Seq<u8>)
    requires
        body.len() <= MAX_NOISE_PKG_LEN,
        part.is_prefix_of(frame(body)),
        part.len() < frame(body).len(),
    ensures
        bodies(part) == Seq::<Seq<u8>>::empty(),
        tail(part) == part,
{
    lemma_prefix_roundtrip(body.len() as int);
    if part.len() >= 2 {
        assert(part[0] == frame(body)[0]);
        assert(part[1] == frame(body)[1]);
        assert(frame_len(part) == body.len());
    }
    assert(!complete(part));
}

/// Adding a body to the end adds its frame to the end of the wire.
pub proof fn lemma_wire_push(bodies: Seq<Seq<u8>>, body: Seq<u8>)
    ensures
        wire(bodies.push(body)) == wire(bodies) + frame(body),
{
    assert(bodies.push(body).drop_last() =~= bodies);
}

/// Adding a part to the end adds it to the end of the whole.
pub proof fn lemma_concat_push(parts: Seq<Seq<u8>>, part: Seq<u8>)
    ensures
        concat(parts.push(part)) == concat(parts) + part,
{
    assert(parts.push(part).drop_last() =~= parts);
}

/// A reader of the wire finds every body that was framed, in order, and has
/// nothing left over.
pub proof fn lemma_bodies_of_wire(framed: Seq<Seq<u8>>)
    requires
        framable(framed),
    ensures
        bodies(wire(framed)) == framed,
        tail(wire(framed)) == Seq::<u8>::empty(),
    decreases framed.len(),
{
    if framed.len() == 0 {
        assert(bodies(wire(framed)) =~= framed);
    } else {
        let before = framed.drop_last();
        let last = framed.last();
        lemma_bodies_of_wire(before);
        lemma_bodies_append(wire(before), frame(last));
        assert(Seq::<u8>::empty() + frame(last) =~= frame(last));
        lemma_bodies_of_frame(last);
        assert(before + seq![last] =~= framed);
    }
}

/// A reader of part of the wire finds the first of the bodies that were
/// framed, in order, and no other.
pub proof fn lemma_bodies_of_wire_part(part: Seq<u8>, framed: Seq<Seq<u8>>)
    requires
        framable(framed),
        part.is_prefix_of(wire(framed)),
    ensures
        bodies(part).is_prefix_of(framed),
    decreases framed.len(),
{
    if framed.len() == 0 {
        assert(part =~= Seq::<u8>::empty());
        assert(bodies(part) =~= Seq::<Seq<u8>>::empty());
    } else {
        let before = framed.drop_last();
        let last = framed.last();
        let done = wire(before);
        if part.len() <= done.len() {
            assert(part.is_prefix_of(done));
            lemma_bodies_of_wire_part(part, before);
            assert(bodies(part).is_prefix_of(framed));
        } else {
            let more = part.subrange(done.len() as int, part.len() as int);
            assert(part =~= done + more);
            assert(more.is_prefix_of(frame(last)));
            lemma_bodies_of_wire(before);
            lemma_bodies_append(done, more);
            assert(Seq::<u8>::empty() + more =~= more);
            if more.len() < frame(last).len() {
                lemma_bodies_of_part(last, more);
                assert(bodies(part) =~= before);
            } else {
                assert(more =~= frame(last));
                lemma_bodies_of_frame(last);
                assert(before + seq![last] =~= framed);
            }
        }
    }
}

/// Every body is a ciphertext that a frame can carry, and none but the last
/// is empty.
pub open spec fn framable_but_last(bodies: Seq<Seq<u8>>) -> bool {
    &&& forall|i: int| 0 <= i < bodies.len() ==> (#[trigger] bodies[i]).len() <= MAX_NOISE_PKG_LEN
    &&& forall|i: int| 0 <= i < bodies.len() - 1 ==> (#[trigger] bodies[i]).len() > 0
}

/// A reader of part of the wire finds the first of the bodies that were
/// framed, in order, and no other, also where the last frame is empty: that
/// one it passes over.
pub proof fn lemma_bodies_of_open_wire_part(part: Seq<u8>, framed: Seq<Seq<u8>>)
    requires
        framable_but_last(framed),
        part.is_prefix_of(wire(framed)),
    ensures
        bodies(part).is_prefix_of(framed),
{
    if framed.len() == 0 || framed.last().len() > 0 {
        lemma_bodies_of_wire_part(part, framed);
    } else {
        let before = framed.drop_last();
        let last = framed.last();
        let done = wire(before);
        if part.len() <= done.len() {
            assert(part.is_prefix_of(done));
            lemma_bodies_of_wire_part(part, before);
        } else {
            let more = part.subrange(done.len() as int, part.len() as int);
            assert(part =~= done + more);
            assert(more.is_prefix_of(frame(last)));
            lemma_bodies_of_wire(before);
            lemma_bodies_append(done, more);
            assert(Seq::<u8>::empty() + more =~= more);
            if more.len() < frame(last).len() {
                lemma_bodies_of_part(last, more);
            } else {
                assert(more =~= frame(last));
                lemma_bodies_of_frame(last);
            }
            assert(bodies(part) =~= before);
        }
    }
}

/// The whole of the first parts begins the whole of all parts.
pub proof fn lemma_concat_prefix(first: Seq<Seq<u8>>, all: Seq<Seq<u8>>)
    requires
        first.is_prefix_of(all),
    ensures
        concat(first).is_prefix_of(concat(all)),
    decreases all.len(),
{
    if first.len() == all.len() {
        assert(first =~= all);
    } else {
        assert(first.is_prefix_of(all.drop_last()));
        lemma_concat_prefix(first, all.drop_last());
    }
}

/// Whatever the bytes, each body that a reader finds in them is a ciphertext
/// that a frame can carry, and none is empty.
pub proof fn lemma_bodies_fit(w: Seq<u8>)
    ensures
        framable(bodies(w)),
    decreases w.len(),
{
    if complete(w) {
        let n = frame_len(w);
        let rest = w.subrange(2 + n, w.len() as int);
        lemma_bodies_fit(rest);
        if n != 0 {
            let found = seq![w.subrange(2, 2 + n)] + bodies(rest);
            assert forall|i: int| 0 <= i < found.len() implies 0 < (#[trigger] found[i]).len()
                <= MAX_NOISE_PKG_LEN by {
                if i > 0 {
                    assert(found[i] == bodies(rest)[i - 1]);
                }
            }
        }
    }
}

} // verus!
