//! Fixed-width integers and ASCII comparisons on byte sequences.

use vstd::prelude::*;
use vstd::slice::{slice_subrange, slice_to_vec};

verus! {

/// The 16-bit big-endian number at `at`.
pub open spec fn be16(b: Seq<u8>, at: int) -> int {
    b[at] * 0x100 + b[at + 1]
}

/// The 24-bit big-endian number at `at`.
pub open spec fn be24(b: Seq<u8>, at: int) -> int {
    b[at] * 0x1_0000 + b[at + 1] * 0x100 + b[at + 2]
}

/// The 32-bit big-endian number at `at`.
pub open spec fn be32(b: Seq<u8>, at: int) -> int {
    b[at] * 0x100_0000 + b[at + 1] * 0x1_0000 + b[at + 2] * 0x100 + b[at + 3]
}

/// The 64-bit big-endian number at `at`.
pub open spec fn be64(b: Seq<u8>, at: int) -> int {
    be32(b, at) * 0x1_0000_0000 + be32(b, at + 4)
}

/// The 32-bit little-endian number at `at`.
pub open spec fn le32(b: Seq<u8>, at: int) -> int {
    b[at] + b[at + 1] * 0x100 + b[at + 2] * 0x1_0000 + b[at + 3] * 0x100_0000
}

/// The 64-bit little-endian number at `at`.
pub open spec fn le64(b: Seq<u8>, at: int) -> int {
    le32(b, at) + le32(b, at + 4) * 0x1_0000_0000
}

/// The low 24 bits of `n`, most significant byte first.
pub open spec fn be24_bytes(n: int) -> Seq<u8> {
    seq![(n / 0x1_0000 % 0x100) as u8, (n / 0x100 % 0x100) as u8, (n % 0x100) as u8]
}

/// The low 32 bits of `n`, most significant byte first.
pub open spec fn be32_bytes(n: int) -> Seq<u8> {
    seq![
        (n / 0x100_0000 % 0x100) as u8,
        (n / 0x1_0000 % 0x100) as u8,
        (n / 0x100 % 0x100) as u8,
        (n % 0x100) as u8,
    ]
}

/// The low 64 bits of `n`, most significant byte first.
pub open spec fn be64_bytes(n: int) -> Seq<u8> {
    be32_bytes(n / 0x1_0000_0000) + be32_bytes(n % 0x1_0000_0000)
}

/// The low 32 bits of `n`, least significant byte first.
pub open spec fn le32_bytes(n: int) -> Seq<u8> {
    seq![
        (n % 0x100) as u8,
        (n / 0x100 % 0x100) as u8,
        (n / 0x1_0000 % 0x100) as u8,
        (n / 0x100_0000 % 0x100) as u8,
    ]
}

/// The low 64 bits of `n`, least significant byte first.
pub open spec fn le64_bytes(n: int) -> Seq<u8> {
    le32_bytes(n % 0x1_0000_0000) + le32_bytes(n / 0x1_0000_0000)
}

/// Reads the 16-bit big-endian number at `at`.
pub fn read_be16(b: &[u8], at: usize) -> (n: u16)
    requires
        at + 2 <= b.len(),
    ensures
        n == be16(b@, at as int),
{
    (b[at] as u16) * 0x100 + (b[at + 1] as u16)
}

/// Reads the 24-bit big-endian number at `at`.
pub fn read_be24(b: &[u8], at: usize) -> (n: u32)
    requires
        at + 3 <= b.len(),
    ensures
        n == be24(b@, at as int),
        n < 0x100_0000,
{
    (b[at] as u32) * 0x1_0000 + (b[at + 1] as u32) * 0x100 + (b[at + 2] as u32)
}

/// Reads the 32-bit big-endian number at `at`.
pub fn read_be32(b: &[u8], at: usize) -> (n: u32)
    requires
        at + 4 <= b.len(),
    ensures
        n == be32(b@, at as int),
{
    (b[at] as u32) * 0x100_0000 + (b[at + 1] as u32) * 0x1_0000 + (b[at + 2] as u32) * 0x100 + (
    b[at + 3] as u32)
}

/// Reads the 64-bit big-endian number at `at`.
pub fn read_be64(b: &[u8], at: usize) -> (n: u64)
    requires
        at + 8 <= b.len(),
    ensures
        n == be64(b@, at as int),
{
    (read_be32(b, at) as u64) * 0x1_0000_0000 + (read_be32(b, at + 4) as u64)
}

/// Reads the 32-bit little-endian number at `at`.
pub fn read_le32(b: &[u8], at: usize) -> (n: u32)
    requires
        at + 4 <= b.len(),
    ensures
        n == le32(b@, at as int),
{
    (b[at] as u32) + (b[at + 1] as u32) * 0x100 + (b[at + 2] as u32) * 0x1_0000 + (b[at + 3] as u32)
        * 0x100_0000
}

/// Reads the 64-bit little-endian number at `at`.
pub fn read_le64(b: &[u8], at: usize) -> (n: u64)
    requires
        at + 8 <= b.len(),
    ensures
        n == le64(b@, at as int),
{
    (read_le32(b, at) as u64) + (read_le32(b, at + 4) as u64) * 0x1_0000_0000
}

/// Appends the low 24 bits of `n`, most significant byte first.
pub fn push_be24(out: &mut Vec<u8>, n: u64)
    ensures
        final(out)@ == old(out)@ + be24_bytes(n as int),
{
    out.push((n / 0x1_0000 % 0x100) as u8);
    out.push((n / 0x100 % 0x100) as u8);
    out.push((n % 0x100) as u8);
}

/// Appends the low 32 bits of `n`, most significant byte first.
pub fn push_be32(out: &mut Vec<u8>, n: u64)
    ensures
        final(out)@ == old(out)@ + be32_bytes(n as int),
{
    out.push((n / 0x100_0000 % 0x100) as u8);
    out.push((n / 0x1_0000 % 0x100) as u8);
    out.push((n / 0x100 % 0x100) as u8);
    out.push((n % 0x100) as u8);
}

/// Appends `n`, most significant byte first.
pub fn push_be64(out: &mut Vec<u8>, n: u64)
    ensures
        final(out)@ == old(out)@ + be64_bytes(n as int),
{
    push_be32(out, n / 0x1_0000_0000);
    push_be32(out, n % 0x1_0000_0000);
    assert(out@ =~= old(out)@ + be64_bytes(n as int));
}

/// Appends the low 32 bits of `n`, least significant byte first.
pub fn push_le32(out: &mut Vec<u8>, n: u64)
    ensures
        final(out)@ == old(out)@ + le32_bytes(n as int),
{
    out.push((n % 0x100) as u8);
    out.push((n / 0x100 % 0x100) as u8);
    out.push((n / 0x1_0000 % 0x100) as u8);
    out.push((n / 0x100_0000 % 0x100) as u8);
}

/// Appends `n`, least significant byte first.
pub fn push_le64(out: &mut Vec<u8>, n: u64)
    ensures
        final(out)@ == old(out)@ + le64_bytes(n as int),
{
    push_le32(out, n % 0x1_0000_0000);
    push_le32(out, n / 0x1_0000_0000);
    assert(out@ =~= old(out)@ + le64_bytes(n as int));
}

/// A big-endian number is read back from the bytes it was written as.
#[verifier::spinoff_prover]
pub proof fn lemma_be24_round_trip(n: int)
    requires
        0 <= n < 0x100_0000,
    ensures
        be24_bytes(n).len() == 3,
        be24(be24_bytes(n), 0) == n,
{
}

/// A big-endian number is read back from the bytes it was written as.
#[verifier::spinoff_prover]
pub proof fn lemma_be32_round_trip(n: int)
    requires
        0 <= n < 0x1_0000_0000,
    ensures
        be32_bytes(n).len() == 4,
        be32(be32_bytes(n), 0) == n,
{
}

/// A big-endian number is read back from the bytes it was written as.
#[verifier::spinoff_prover]
pub proof fn lemma_be64_round_trip(n: int)
    requires
        0 <= n < 0x1_0000_0000_0000_0000,
    ensures
        be64_bytes(n).len() == 8,
        be64(be64_bytes(n), 0) == n,
{
    lemma_be32_round_trip(n / 0x1_0000_0000);
    lemma_be32_round_trip(n % 0x1_0000_0000);
}

/// A little-endian number is read back from the bytes it was written as.
#[verifier::spinoff_prover]
pub proof fn lemma_le32_round_trip(n: int)
    requires
        0 <= n < 0x1_0000_0000,
    ensures
        le32_bytes(n).len() == 4,
        le32(le32_bytes(n), 0) == n,
{
}

/// A little-endian number is read back from the bytes it was written as.
#[verifier::spinoff_prover]
pub proof fn lemma_le64_round_trip(n: int)
    requires
        0 <= n < 0x1_0000_0000_0000_0000,
    ensures
        le64_bytes(n).len() == 8,
        le64(le64_bytes(n), 0) == n,
{
    lemma_le32_round_trip(n % 0x1_0000_0000);
    lemma_le32_round_trip(n / 0x1_0000_0000);
}

/// The same four bytes are the same number.
pub proof fn lemma_be32_same(a: Seq<u8>, i: int, b: Seq<u8>, j: int)
    requires
        a[i] == b[j],
        a[i + 1] == b[j + 1],
        a[i + 2] == b[j + 2],
        a[i + 3] == b[j + 3],
    ensures
        be32(a, i) == be32(b, j),
{
}

/// Only the low 32 bits of a number are written.
#[verifier::spinoff_prover]
pub proof fn lemma_be32_low(n: int)
    requires
        0 <= n,
    ensures
        be32_bytes(n % 0x1_0000_0000) == be32_bytes(n),
{
    let q = n / 0x1_0000_0000;
    let r = n % 0x1_0000_0000;
    assert(n == q * 0x1_0000_0000 + r);
    assert(n / 0x100_0000 == q * 0x100 + r / 0x100_0000);
    assert(n / 0x1_0000 == q * 0x1_0000 + r / 0x1_0000);
    assert(n / 0x100 == q * 0x100_0000 + r / 0x100);
    lemma_low_byte(q, r / 0x100_0000);
    lemma_low_byte(q * 0x100, r / 0x1_0000);
    lemma_low_byte(q * 0x1_0000, r / 0x100);
    lemma_low_byte(q * 0x100_0000, r);
}

proof fn lemma_low_byte(high: int, low: int)
    ensures
        (high * 0x100 + low) % 0x100 == low % 0x100,
{
}

#[verifier::spinoff_prover]
proof fn lemma_base_256(a: int, b: int, c: int, d: int)
    requires
        0 <= a < 0x100,
        0 <= b < 0x100,
        0 <= c < 0x100,
        0 <= d < 0x100,
    ensures
        ({
            let n = a * 0x100_0000 + b * 0x1_0000 + c * 0x100 + d;
            &&& n / 0x100_0000 % 0x100 == a
            &&& n / 0x1_0000 % 0x100 == b
            &&& n / 0x100 % 0x100 == c
            &&& n % 0x100 == d
            &&& 0 <= n < 0x1_0000_0000
        }),
{
    let n = a * 0x100_0000 + b * 0x1_0000 + c * 0x100 + d;
    assert(n / 0x100_0000 == a);
    assert(n / 0x1_0000 == a * 0x100 + b);
    assert(n / 0x100 == a * 0x1_0000 + b * 0x100 + c);
    lemma_low_byte(a, b);
    lemma_low_byte(a * 0x100 + b, c);
    lemma_low_byte(a * 0x1_0000 + b * 0x100 + c, d);
}

/// Four bytes are written back as they were read.
#[verifier::spinoff_prover]
pub proof fn lemma_be32_rewrite(b: Seq<u8>, at: int)
    requires
        0 <= at,
        at + 4 <= b.len(),
    ensures
        be32_bytes(be32(b, at)) == b.subrange(at, at + 4),
        0 <= be32(b, at) < 0x1_0000_0000,
{
    lemma_base_256(b[at] as int, b[at + 1] as int, b[at + 2] as int, b[at + 3] as int);
    assert(be32_bytes(be32(b, at)) =~= b.subrange(at, at + 4));
}

/// Eight bytes are written back as they were read.
#[verifier::spinoff_prover]
pub proof fn lemma_be64_rewrite(b: Seq<u8>, at: int)
    requires
        0 <= at,
        at + 8 <= b.len(),
    ensures
        be64_bytes(be64(b, at)) == b.subrange(at, at + 8),
        0 <= be64(b, at) < 0x1_0000_0000_0000_0000,
{
    lemma_be32_rewrite(b, at);
    lemma_be32_rewrite(b, at + 4);
    let high = be32(b, at);
    let low = be32(b, at + 4);
    assert(be64(b, at) / 0x1_0000_0000 == high);
    assert(be64(b, at) % 0x1_0000_0000 == low);
    assert(be64_bytes(be64(b, at)) =~= b.subrange(at, at + 8));
}

/// Copies the bytes from `from` up to `to`.
pub fn copy_range(b: &[u8], from: usize, to: usize) -> (r: Vec<u8>)
    requires
        from <= to <= b@.len(),
    ensures
        r@ == b@.subrange(from as int, to as int),
{
    slice_to_vec(slice_subrange(b, from, to))
}

/// Appends `more` to `out`.
pub fn append_bytes(out: &mut Vec<u8>, more: &[u8])
    ensures
        final(out)@ == old(out)@ + more@,
{
    out.extend_from_slice(more);
    assert(out@ =~= old(out)@ + more@);
}

/// Whether `pattern` stands in `b` at `at`.
pub open spec fn stands_at(b: Seq<u8>, at: int, pattern: Seq<u8>) -> bool {
    &&& 0 <= at
    &&& at + pattern.len() <= b.len()
    &&& b.subrange(at, at + pattern.len()) == pattern
}

/// Tells whether `pattern` stands in `b` at `at`.
pub fn is_at(b: &[u8], at: usize, pattern: &[u8]) -> (r: bool)
    ensures
        r == stands_at(b@, at as int, pattern@),
{
    if at > b.len() || pattern.len() > b.len() - at {
        return false;
    }
    let mut i: usize = 0;
    while i < pattern.len()
        invariant
            i <= pattern@.len(),
            at + pattern@.len() <= b.len(),
            forall|j: int| 0 <= j < i ==> b@[at + j] == pattern@[j],
        decreases pattern@.len() - i,
    {
        if b[at + i] != pattern[i] {
            assert(b@.subrange(at as int, at + pattern@.len())[i as int] != pattern@[i as int]);
            return false;
        }
        i = i + 1;
    }
    assert(b@.subrange(at as int, at + pattern@.len()) =~= pattern@);
    true
}

/// `b` with an ASCII capital made small.
pub open spec fn lower(b: u8) -> u8 {
    if 0x41 <= b <= 0x5a {
        (b + 0x20) as u8
    } else {
        b
    }
}

/// Makes an ASCII capital small.
pub fn to_lower(b: u8) -> (r: u8)
    ensures
        r == lower(b),
{
    if 0x41 <= b && b <= 0x5a {
        b + 0x20
    } else {
        b
    }
}

/// Whether two byte strings are equal but for the case of ASCII letters.
pub open spec fn same_ignoring_case(a: Seq<u8>, b: Seq<u8>) -> bool {
    &&& a.len() == b.len()
    &&& forall|i: int| 0 <= i < a.len() ==> lower(#[trigger] a[i]) == lower(b[i])
}

/// Tells whether two byte strings are equal but for the case of ASCII letters.
pub fn eq_ignoring_case(a: &[u8], b: &[u8]) -> (r: bool)
    ensures
        r == same_ignoring_case(a@, b@),
{
    if a.len() != b.len() {
        return false;
    }
    let mut i: usize = 0;
    while i < a.len()
        invariant
            i <= a@.len(),
            a@.len() == b@.len(),
            forall|j: int| 0 <= j < i ==> lower(#[trigger] a@[j]) == lower(b@[j]),
        decreases a@.len() - i,
    {
        if to_lower(a[i]) != to_lower(b[i]) {
            return false;
        }
        i = i + 1;
    }
    true
}

/// The place of the first `wanted` in `b`.
pub open spec fn first_index(b: Seq<u8>, wanted: u8) -> Option<int>
    decreases b.len(),
{
    if b.len() == 0 {
        None
    } else if b[0] == wanted {
        Some(0)
    } else {
        match first_index(b.drop_first(), wanted) {
            Some(i) => Some(i + 1),
            None => None,
        }
    }
}

/// What `first_index` finds is the first place that holds `wanted`.
#[verifier::spinoff_prover]
#[verifier::rlimit(40)]
pub proof fn lemma_first_index(b: Seq<u8>, wanted: u8)
    ensures
        match first_index(b, wanted) {
            Some(i) => 0 <= i < b.len() && b[i] == wanted && forall|j: int|
                0 <= j < i ==> b[j] != wanted,
            None => forall|j: int| 0 <= j < b.len() ==> b[j] != wanted,
        },
    decreases b.len(),
{
    if b.len() > 0 && b[0] != wanted {
        let rest = b.drop_first();
        lemma_first_index(rest, wanted);
        match first_index(rest, wanted) {
            Some(i) => {
                assert forall|j: int| 0 <= j < i + 1 implies b[j] != wanted by {
                    if j > 0 {
                        assert(rest[j - 1] == b[j]);
                    }
                }
            },
            None => {
                assert forall|j: int| 0 <= j < b.len() implies b[j] != wanted by {
                    if j > 0 {
                        assert(rest[j - 1] == b[j]);
                    }
                }
            },
        }
    }
}

/// A place that holds `wanted` and has none before it is what `first_index` finds.
pub proof fn lemma_first_index_is(b: Seq<u8>, wanted: u8, i: int)
    requires
        0 <= i < b.len(),
        b[i] == wanted,
        forall|j: int| 0 <= j < i ==> b[j] != wanted,
    ensures
        first_index(b, wanted) == Some(i),
{
    lemma_first_index(b, wanted);
}

/// Finds the first `wanted` in `b`.
pub fn find_byte(b: &[u8], wanted: u8) -> (r: Option<usize>)
    ensures
        match r {
            Some(i) => first_index(b@, wanted) == Some(i as int) && i < b@.len(),
            None => first_index(b@, wanted) is None,
        },
{
    let mut i: usize = 0;
    while i < b.len()
        invariant
            i <= b@.len(),
            forall|j: int| 0 <= j < i ==> b@[j] != wanted,
        decreases b@.len() - i,
    {
        if b[i] == wanted {
            proof {
                lemma_first_index_is(b@, wanted, i as int);
            }
            return Some(i);
        }
        i = i + 1;
    }
    proof {
        lemma_first_index(b@, wanted);
    }
    None
}

/// The views of a list of byte strings.
pub open spec fn views(list: Seq<Vec<u8>>) -> Seq<Seq<u8>> {
    list.map_values(|v: Vec<u8>| v@)
}

} // verus!
