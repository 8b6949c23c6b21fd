//! Byte-level helpers: the Keccak-256 digest, little-endian integers, byte equality.
use vstd::prelude::*;

verus! {

/// The Keccak-256 digest of a byte string.
pub uninterp spec fn keccak_of(data: Seq<u8>) -> Seq<u8>;

/// Relies on sha3's `Keccak256::digest`: a 32-byte digest that depends on the bytes alone.
#[verifier::external_body]
pub(crate) fn keccak256(data: &[u8]) -> (r: Vec<u8>)
    ensures
        r@ == keccak_of(data@),
        r@.len() == 32,
{
    <sha3::Keccak256 as sha3::Digest>::digest(data).to_vec()
}

/// The `n` low bytes of `v`, least significant first.
pub open spec fn le_bytes(v: nat, n: nat) -> Seq<u8>
    decreases n,
{
    if n == 0 {
        seq![]
    } else {
        seq![(v % 256) as u8] + le_bytes(v / 256, (n - 1) as nat)
    }
}

/// The eight-byte little-endian encoding of `v`.
pub open spec fn u64_le(v: u64) -> Seq<u8> {
    le_bytes(v as nat, 8)
}

/// Appends the little-endian encoding of `v` to `out`.
pub fn push_u64_le(out: &mut Vec<u8>, v: u64)
    ensures
        final(out)@ == old(out)@ + u64_le(v),
{
    let ghost start = out@;
    let mut x: u64 = v;
    let mut i: usize = 0;
    while i < 8
        invariant
            i <= 8,
            out@ + le_bytes(x as nat, (8 - i) as nat) == start + u64_le(v),
        decreases 8 - i,
    {
        let ghost before = out@;
        let b = (x % 256) as u8;
        out.push(b);
        proof {
            let rest = le_bytes((x / 256) as nat, (8 - i - 1) as nat);
            assert(le_bytes(x as nat, (8 - i) as nat) == seq![b] + rest);
            assert(before + (seq![b] + rest) =~= out@ + rest);
        }
        x = x / 256;
        i = i + 1;
    }
    assert(le_bytes(x as nat, 0) =~= Seq::<u8>::empty());
    assert(out@ + le_bytes(x as nat, 0) =~= out@);
}

/// Appends all of `data` to `out`.
pub fn push_bytes(out: &mut Vec<u8>, data: &Vec<u8>)
    ensures
        final(out)@ == old(out)@ + data@,
{
    let ghost start = out@;
    let mut i: usize = 0;
    while i < data.len()
        invariant
            i <= data@.len(),
            out@ == start + data@.take(i as int),
        decreases data@.len() - i,
    {
        out.push(data[i]);
        assert(data@.take(i as int + 1) =~= data@.take(i as int).push(data@[i as int]));
        assert(out@ =~= start + data@.take(i as int + 1));
        i = i + 1;
    }
    assert(data@.take(data@.len() as int) =~= data@);
}

/// A copy of a byte vector.
pub fn copy_bytes(v: &Vec<u8>) -> (r: Vec<u8>)
    ensures
        r@ == v@,
{
    let r = v.clone();
    assert(r@ =~= v@);
    r
}

/// Whether two byte vectors hold the same bytes.
pub fn bytes_eq(a: &Vec<u8>, b: &Vec<u8>) -> (r: bool)
    ensures
        r == (a@ == b@),
{
    if a.len() != b.len() {
        return false;
    }
    let mut i: usize = 0;
    while i < a.len()
        invariant
            a@.len() == b@.len(),
            i <= a@.len(),
            forall|k: int| 0 <= k < i ==> a@[k] == b@[k],
        decreases a@.len() - i,
    {
        if a[i] != b[i] {
            return false;
        }
        i = i + 1;
    }
    assert(a@ =~= b@);
    true
}

/// The byte strings held by a vector of byte vectors.
pub open spec fn byte_seqs(v: Seq<Vec<u8>>) -> Seq<Seq<u8>> {
    v.map_values(|x: Vec<u8>| x@)
}

/// Whether `c` is among the byte strings of `list`.
pub fn contains_bytes(list: &Vec<Vec<u8>>, c: &Vec<u8>) -> (r: bool)
    ensures
        r == byte_seqs(list@).contains(c@),
{
    let mut i: usize = 0;
    while i < list.len()
        invariant
            i <= list@.len(),
            forall|k: int| 0 <= k < i ==> list@[k]@ != c@,
        decreases list@.len() - i,
    {
        if bytes_eq(&list[i], c) {
            assert(byte_seqs(list@)[i as int] == c@);
            return true;
        }
        i = i + 1;
    }
    assert(!byte_seqs(list@).contains(c@)) by {
        if byte_seqs(list@).contains(c@) {
            let k = choose|k: int| 0 <= k < byte_seqs(list@).len() && byte_seqs(list@)[k] == c@;
            assert(list@[k]@ == c@);
        }
    }
    false
}

/// A copy of a vector of byte vectors.
pub fn copy_byte_list(v: &Vec<Vec<u8>>) -> (r: Vec<Vec<u8>>)
    ensures
        byte_seqs(r@) == byte_seqs(v@),
{
    let mut r: Vec<Vec<u8>> = Vec::new();
    let mut i: usize = 0;
    while i < v.len()
        invariant
            i <= v@.len(),
            r@.len() == i,
            forall|k: int| 0 <= k < i ==> (#[trigger] r@[k])@ == v@[k]@,
        decreases v@.len() - i,
    {
        r.push(copy_bytes(&v[i]));
        i = i + 1;
    }
    assert(byte_seqs(r@) =~= byte_seqs(v@));
    r
}

/// Appends copies of the byte vectors of `more` to `out`.
pub fn append_byte_list(out: &mut Vec<Vec<u8>>, more: &Vec<Vec<u8>>)
    ensures
        byte_seqs(final(out)@) == byte_seqs(old(out)@) + byte_seqs(more@),
{
    let ghost start = out@;
    let mut i: usize = 0;
    while i < more.len()
        invariant
            i <= more@.len(),
            out@.len() == start.len() + i,
            forall|k: int| 0 <= k < start.len() ==> (#[trigger] out@[k])@ == start[k]@,
            forall|k: int| 0 <= k < i ==> (#[trigger] out@[start.len() + k])@ == more@[k]@,
        decreases more@.len() - i,
    {
        out.push(copy_bytes(&more[i]));
        assert forall|k: int| 0 <= k < i + 1 implies (#[trigger] out@[start.len() + k])@ == more@[k]@ by {
        }
        i = i + 1;
    }
    assert forall|k: int| 0 <= k < out@.len() implies #[trigger] byte_seqs(out@)[k] == (byte_seqs(start) + byte_seqs(more@))[k] by {
        if k >= start.len() {
            assert(out@[start.len() + (k - start.len())] == out@[k]);
        }
    }
    assert(byte_seqs(out@) =~= byte_seqs(start) + byte_seqs(more@));
}

} // verus!
