use vstd::prelude::*;

verus! {

/// The bytes of an RGBA buffer for the given RGB pixels: each pixel's three
/// channels followed by a fully opaque alpha byte.
pub open spec fn rgba_bytes(pixels: Seq<[u8; 3]>) -> Seq<u8>
    decreases pixels.len(),
{
    if pixels.len() == 0 {
        Seq::empty()
    } else {
        let p = pixels.last();
        rgba_bytes(pixels.drop_last()).push(p[0]).push(p[1]).push(p[2]).push(255u8)
    }
}

proof fn lemma_rgba_bytes_len(pixels: Seq<[u8; 3]>)
    ensures
        rgba_bytes(pixels).len() == 4 * pixels.len(),
    decreases pixels.len(),
{
    if pixels.len() > 0 {
        lemma_rgba_bytes_len(pixels.drop_last());
    }
}

/// Packs RGB pixels into the RGBA byte layout that a display surface takes,
/// with every pixel opaque.
pub fn rgba_from_rgb(pixels: &Vec<[u8; 3]>) -> (r: Vec<u8>)
    requires
        4 * pixels@.len() <= usize::MAX,
    ensures
        r@ == rgba_bytes(pixels@),
        r@.len() == 4 * pixels@.len(),
        forall|i: int| 0 <= i < pixels@.len() ==> {
            &&& r@[4 * i] == pixels@[i][0]
            &&& r@[4 * i + 1] == pixels@[i][1]
            &&& r@[4 * i + 2] == pixels@[i][2]
            &&& r@[4 * i + 3] == 255u8
        },
{
    let mut out: Vec<u8> = Vec::with_capacity(4 * pixels.len());
    let mut i: usize = 0;
    while i < pixels.len()
        invariant
            i <= pixels@.len(),
            out@ == rgba_bytes(pixels@.subrange(0, i as int)),
            out@.len() == 4 * i,
            forall|k: int| 0 <= k < i ==> {
                &&& out@[4 * k] == pixels@[k][0]
                &&& out@[4 * k + 1] == pixels@[k][1]
                &&& out@[4 * k + 2] == pixels@[k][2]
                &&& out@[4 * k + 3] == 255u8
            },
        decreases pixels@.len() - i,
    {
        let p = pixels[i];
        out.push(p[0]);
        out.push(p[1]);
        out.push(p[2]);
        out.push(255u8);
        proof {
            assert(pixels@.subrange(0, i as int + 1).drop_last() =~= pixels@.subrange(0, i as int));
        }
        i = i + 1;
    }
    proof {
        assert(pixels@.subrange(0, pixels@.len() as int) =~= pixels@);
        lemma_rgba_bytes_len(pixels@);
    }
    out
}

} // verus!
