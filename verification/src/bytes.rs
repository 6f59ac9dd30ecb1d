use vstd::prelude::*;
use vstd::string::StringSliceAdditionalSpecFns;
use vstd::utf8::encode_utf8;

verus! {

/// The number that four bytes spell, most significant byte first.
pub open spec fn be_u32(b: Seq<u8>) -> int
    recommends
        b.len() == 4,
{
    b[0] as int * 16777216 + b[1] as int * 65536 + b[2] as int * 256 + b[3] as int
}

/// The four bytes that spell `x`, most significant byte first.
pub open spec fn u32_be_bytes(x: u32) -> Seq<u8> {
    seq![
        (x as int / 16777216) as u8,
        (x as int / 65536 % 256) as u8,
        (x as int / 256 % 256) as u8,
        (x as int % 256) as u8,
    ]
}

/// Reading back the big-endian bytes of a number gives the number.
pub proof fn lemma_be_u32_round_trip(x: u32)
    ensures
        u32_be_bytes(x).len() == 4,
        be_u32(u32_be_bytes(x)) == x,
{
    let v = x as int;
    assert(0 <= v / 16777216 < 256);
    assert(v == (v / 16777216) * 16777216 + (v / 65536 % 256) * 65536 + (v / 256 % 256) * 256 + v
        % 256);
}

/// What `data` holds from `at` on, for `len` bytes.
pub open spec fn window(data: Seq<u8>, at: int, len: int) -> Seq<u8> {
    data.subrange(at, at + len)
}

/// Reads a big-endian `u32` at `at`.
pub fn read_be_u32(data: &[u8], at: usize) -> (x: u32)
    requires
        at + 4 <= data@.len(),
    ensures
        x == be_u32(window(data@, at as int, 4)),
{
    let b0 = data[at] as u32;
    let b1 = data[at + 1] as u32;
    let b2 = data[at + 2] as u32;
    let b3 = data[at + 3] as u32;
    b0 * 16777216 + b1 * 65536 + b2 * 256 + b3
}

/// The big-endian bytes of `x`.
pub fn be_bytes_of(x: u32) -> (b: [u8; 4])
    ensures
        b@ == u32_be_bytes(x),
{
    let b = [
        (x / 16777216) as u8,
        (x / 65536 % 256) as u8,
        (x / 256 % 256) as u8,
        (x % 256) as u8,
    ];
    assert(b@ =~= u32_be_bytes(x));
    b
}

/// `data` with `block` laid over it from `at` on.
pub open spec fn overlay(data: Seq<u8>, at: int, block: Seq<u8>) -> Seq<u8>
    recommends
        0 <= at,
        at + block.len() <= data.len(),
{
    Seq::new(
        data.len(),
        |i: int| if at <= i < at + block.len() { block[i - at] } else { data[i] },
    )
}

/// Copies `block` into `data` from `at` on.
pub fn write_at(data: &mut Vec<u8>, at: usize, block: &[u8])
    requires
        at + block@.len() <= old(data)@.len(),
    ensures
        final(data)@ == overlay(old(data)@, at as int, block@),
{
    let n = block.len();
    let total = data.len();
    let mut i: usize = 0;
    while i < n
        invariant
            n == block@.len(),
            i <= n,
            at + n <= total,
            total == data@.len(),
            data@.len() == old(data)@.len(),
            forall|j: int| 0 <= j < data@.len() ==> data@[j] == (if at <= j < at + i {
                block@[j - at]
            } else {
                old(data)@[j]
            }),
        decreases n - i,
    {
        data[at + i] = block[i];
        i += 1;
    }
    assert(data@ =~= overlay(old(data)@, at as int, block@));
}

/// Whether every byte of `data` from `from` on is zero.
pub open spec fn zero_from(data: Seq<u8>, from: int) -> bool {
    forall|i: int| from <= i < data.len() ==> data[i] == 0
}

/// Sets every byte of `data` from `from` on to zero.
pub fn zero_tail(data: &mut Vec<u8>, from: usize)
    ensures
        final(data)@.len() == old(data)@.len(),
        forall|i: int| 0 <= i < from && i < old(data)@.len() ==> final(data)@[i] == old(data)@[i],
        zero_from(final(data)@, from as int),
{
    let n = data.len();
    let mut i: usize = from;
    while i < n
        invariant
            n == data@.len(),
            n == old(data)@.len(),
            from <= i,
            forall|j: int| 0 <= j < from && j < n ==> data@[j] == old(data)@[j],
            forall|j: int| from <= j < i && j < n ==> data@[j] == 0,
        decreases n - i,
    {
        data[i] = 0u8;
        i += 1;
    }
}

/// Whether `a` comes before `b` when bytes are compared one by one and a
/// proper prefix comes first.
pub open spec fn bytes_less(a: Seq<u8>, b: Seq<u8>) -> bool
    decreases a.len(),
{
    if b.len() == 0 {
        false
    } else if a.len() == 0 {
        true
    } else if a[0] != b[0] {
        a[0] < b[0]
    } else {
        bytes_less(a.skip(1), b.skip(1))
    }
}

/// Nothing comes before itself.
pub proof fn lemma_bytes_less_irreflexive(a: Seq<u8>)
    ensures
        !bytes_less(a, a),
    decreases a.len(),
{
    if a.len() > 0 {
        lemma_bytes_less_irreflexive(a.skip(1));
    }
}

/// The order is transitive.
pub proof fn lemma_bytes_less_transitive(a: Seq<u8>, b: Seq<u8>, c: Seq<u8>)
    requires
        bytes_less(a, b),
        bytes_less(b, c),
    ensures
        bytes_less(a, c),
    decreases a.len(),
{
    if a.len() > 0 && a[0] == b[0] && b[0] == c[0] {
        lemma_bytes_less_transitive(a.skip(1), b.skip(1), c.skip(1));
    }
}

/// Of two different byte strings one comes before the other.
pub proof fn lemma_bytes_less_total(a: Seq<u8>, b: Seq<u8>)
    ensures
        bytes_less(a, b) || bytes_less(b, a) || a == b,
    decreases a.len(),
{
    if a.len() > 0 && b.len() > 0 && a[0] == b[0] {
        lemma_bytes_less_total(a.skip(1), b.skip(1));
        if a.skip(1) == b.skip(1) {
            assert(a =~= seq![a[0]] + a.skip(1));
            assert(b =~= seq![b[0]] + b.skip(1));
        }
    } else if a.len() == 0 && b.len() == 0 {
        assert(a =~= b);
    }
}

/// Whether the first `n` bytes of `a` and `b` agree.
pub open spec fn agree_upto(a: Seq<u8>, b: Seq<u8>, n: int) -> bool {
    n <= a.len() && n <= b.len() && forall|i: int| 0 <= i < n ==> a[i] == b[i]
}

/// The order of two strings that agree on a prefix is the order of what follows it.
pub proof fn lemma_bytes_less_skip(a: Seq<u8>, b: Seq<u8>, n: int)
    requires
        0 <= n,
        agree_upto(a, b, n),
    ensures
        bytes_less(a, b) == bytes_less(a.skip(n), b.skip(n)),
    decreases n,
{
    if n > 0 {
        lemma_bytes_less_skip(a.skip(1), b.skip(1), n - 1);
        assert(a.skip(1).skip(n - 1) =~= a.skip(n));
        assert(b.skip(1).skip(n - 1) =~= b.skip(n));
    } else {
        assert(a.skip(0) =~= a);
        assert(b.skip(0) =~= b);
    }
}

/// Decides the byte-wise order of two byte strings.
pub fn less_bytes(a: &[u8], b: &[u8]) -> (r: bool)
    ensures
        r == bytes_less(a@, b@),
{
    let mut i: usize = 0;
    while i < a.len() && i < b.len()
        invariant
            agree_upto(a@, b@, i as int),
        decreases a.len() - i,
    {
        if a[i] != b[i] {
            proof {
                lemma_bytes_less_skip(a@, b@, i as int);
            }
            return a[i] < b[i];
        }
        i += 1;
    }
    proof {
        lemma_bytes_less_skip(a@, b@, i as int);
    }
    i < b.len()
}

/// Whether key `a` comes before key `b`: the order of their UTF-8 bytes.
pub open spec fn key_before(a: Seq<char>, b: Seq<char>) -> bool {
    bytes_less(encode_utf8(a), encode_utf8(b))
}

/// Decides the order of two keys.
pub fn key_less(a: &str, b: &str) -> (r: bool)
    ensures
        r == key_before(a@, b@),
{
    less_bytes(a.as_bytes(), b.as_bytes())
}

/// The number of UTF-8 bytes of a text.
pub open spec fn byte_len(text: Seq<char>) -> nat {
    encode_utf8(text).len()
}

/// Counts the UTF-8 bytes of a text.
pub fn text_len(text: &str) -> (n: usize)
    ensures
        n == byte_len(text@),
{
    text.as_bytes().len()
}

/// A vector of `n` zeros.
pub fn zeros(n: usize) -> (v: Vec<u8>)
    ensures
        v@ == Seq::new(n as nat, |i: int| 0u8),
{
    let mut v: Vec<u8> = Vec::new();
    let mut i: usize = 0;
    while i < n
        invariant
            i <= n,
            v@.len() == i,
            forall|j: int| 0 <= j < i ==> v@[j] == 0u8,
        decreases n - i,
    {
        v.push(0u8);
        i += 1;
    }
    assert(v@ =~= Seq::new(n as nat, |i: int| 0u8));
    v
}

/// A file made at least `len` bytes long by zeros at its end.
pub open spec fn grown(file: Seq<u8>, len: int) -> Seq<u8> {
    if file.len() >= len {
        file
    } else {
        file + Seq::new((len - file.len()) as nat, |i: int| 0u8)
    }
}

} // verus!
