use crate::index::{ix, nx};
use vstd::prelude::*;

verus! {

/// Size of the fixed part of a prefix.
pub const PREFIX_SIZE: usize = 16;

/// Longest prefix that fits in the fixed part.
pub const INLINE_CAP: usize = 15;

/// Concatenation of a list of byte slices.
pub open spec fn concat_slices(slices: Seq<Seq<u8>>) -> Seq<u8>
    decreases slices.len(),
{
    if slices.len() == 0 {
        Seq::empty()
    } else {
        concat_slices(slices.drop_last()) + slices.last()
    }
}

/// Joining two slices.
pub proof fn lemma_concat_two(a: Seq<u8>, b: Seq<u8>)
    ensures
        concat_slices(seq![a, b]) == a + b,
{
    let s = seq![a, b];
    assert(s.drop_last() =~= seq![a]);
    assert(s.drop_last().drop_last() =~= Seq::<Seq<u8>>::empty());
    assert(concat_slices(s.drop_last().drop_last()) =~= Seq::<u8>::empty());
    assert(concat_slices(s.drop_last()) =~= a);
    assert(concat_slices(s) =~= a + b);
}

/// The views of a list of byte slices.
pub open spec fn slice_views(slices: Seq<&[u8]>) -> Seq<Seq<u8>> {
    Seq::new(slices.len(), |i: int| slices[i]@)
}

/// The bytes that label an edge of the trie.
///
/// Short prefixes (at most `INLINE_CAP` bytes) count as inline.
pub struct Prefix {
    bytes: Vec<u8>,
}

impl View for Prefix {
    type V = Seq<u8>;

    closed spec fn view(&self) -> Seq<u8> {
        self.bytes@
    }
}

/// Copies a slice into a fresh vector.
pub fn copy_bytes(data: &[u8]) -> (out: Vec<u8>)
    ensures
        out@ == data@,
{
    let mut out: Vec<u8> = Vec::with_capacity(data.len());
    let mut i: usize = 0;
    while i < data.len()
        invariant
            i <= data@.len(),
            out@ == data@.take(ix(i)),
        decreases data@.len() - i,
    {
        out.push(data[i]);
        i = i + 1;
        proof {
            assert(out@ =~= data@.take(ix(i)));
        }
    }
    proof {
        assert(data@.take(nx(data@.len())) =~= data@);
    }
    out
}

impl Prefix {
    pub fn new(data: &[u8]) -> (res: Self)
        ensures
            res@ == data@,
    {
        Prefix { bytes: copy_bytes(data) }
    }

    /// Builds a single prefix out of several slices, in order.
    pub fn from_slices(slices: &[&[u8]]) -> (res: Self)
        ensures
            res@ == concat_slices(slice_views(slices@)),
    {
        let mut bytes: Vec<u8> = Vec::new();
        let mut k: usize = 0;
        while k < slices.len()
            invariant
                k <= slices@.len(),
                bytes@ == concat_slices(slice_views(slices@).take(ix(k))),
            decreases slices@.len() - k,
        {
            let s: &[u8] = slices[k];
            let mut i: usize = 0;
            let ghost start = bytes@;
            while i < s.len()
                invariant
                    i <= s@.len(),
                    bytes@ == start + s@.take(ix(i)),
                decreases s@.len() - i,
            {
                bytes.push(s[i]);
                i = i + 1;
                proof {
                    assert(bytes@ =~= start + s@.take(ix(i)));
                }
            }
            proof {
                assert(s@.take(nx(s@.len())) =~= s@);
                let sv = slice_views(slices@);
                assert(sv.take(k + 1).drop_last() =~= sv.take(ix(k)));
                assert(sv.take(k + 1).last() == s@);
            }
            k = k + 1;
        }
        proof {
            assert(slice_views(slices@).take(nx(slices@.len())) =~= slice_views(slices@));
        }
        Prefix { bytes }
    }

    /// Whether the prefix is short enough to count as inline.
    pub fn is_inline(&self) -> (r: bool)
        ensures
            r == (self@.len() <= INLINE_CAP),
    {
        self.bytes.len() <= INLINE_CAP
    }

    pub fn len(&self) -> (n: usize)
        ensures
            n == self@.len(),
    {
        self.bytes.len()
    }

    pub fn as_ref(&self) -> (s: &[u8])
        ensures
            s@ == self@,
    {
        self.bytes.as_slice()
    }
}

} // verus!
