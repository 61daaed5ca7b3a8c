use vstd::prelude::*;

verus! {

/// The bytes `,\n` that stand between two array elements.
pub open spec fn separator() -> Seq<u8> {
    seq![44u8, 10u8]
}

/// The elements joined by separators, with none before the first or after
/// the last.
pub open spec fn joined(els: Seq<Seq<u8>>) -> Seq<u8>
    decreases els.len(),
{
    if els.len() == 0 {
        Seq::empty()
    } else if els.len() == 1 {
        els[0]
    } else {
        joined(els.drop_last()) + separator() + els.last()
    }
}

/// What the writer emits for the element at `index`.
pub open spec fn framed(index: int, element: Seq<u8>) -> Seq<u8> {
    if index == 0 {
        element
    } else {
        separator() + element
    }
}

/// Everything emitted for the first `n` elements, one after the other.
pub open spec fn stream(els: Seq<Seq<u8>>, n: int) -> Seq<u8>
    decreases n,
{
    if n <= 0 {
        Seq::empty()
    } else {
        stream(els, n - 1) + framed(n - 1, els[n - 1])
    }
}

/// Frames one element of a JSON array being streamed out: the separator goes
/// before every element but the first.
pub fn frame_element(index: usize, element: &Vec<u8>) -> (r: Vec<u8>)
    ensures
        r@ == framed(index as int, element@),
{
    let mut out: Vec<u8> = Vec::new();
    if index > 0 {
        out.push(44u8);
        out.push(10u8);
    }
    let n = element.len();
    let mut i: usize = 0;
    while i < n
        invariant
            n == element@.len(),
            i <= n,
            out@ == framed(index as int, element@.take(i as int)),
        decreases n - i,
    {
        proof {
            assert(element@.take(i + 1) =~= element@.take(i as int).push(element@[i as int]));
        }
        out.push(element[i]);
        proof {
            assert(out@ =~= framed(index as int, element@.take(i + 1)));
        }
        i = i + 1;
    }
    proof {
        assert(element@.take(n as int) =~= element@);
    }
    out
}

/// Streaming the elements one frame at a time writes exactly the joined
/// elements: no separator before the first, none after the last.
pub proof fn lemma_stream_is_joined(els: Seq<Seq<u8>>)
    ensures
        stream(els, els.len() as int) == joined(els),
    decreases els.len(),
{
    if els.len() > 0 {
        let dl = els.drop_last();
        lemma_stream_is_joined(dl);
        lemma_stream_prefix(els, dl, dl.len() as int);
        if els.len() == 1 {
            assert(stream(els, 0) =~= Seq::<u8>::empty());
            assert(stream(els, 1) =~= els[0]);
        } else {
            assert(stream(els, els.len() as int) =~= joined(els));
        }
    }
}

proof fn lemma_stream_prefix(els: Seq<Seq<u8>>, dl: Seq<Seq<u8>>, n: int)
    requires
        0 <= n <= dl.len(),
        dl.len() <= els.len(),
        forall|i: int| 0 <= i < dl.len() ==> dl[i] == els[i],
    ensures
        stream(els, n) == stream(dl, n),
    decreases n,
{
    if n > 0 {
        lemma_stream_prefix(els, dl, n - 1);
    }
}

} // verus!
