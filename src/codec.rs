//! Big-endian cell codec for device-tree property values.
use vstd::prelude::*;

verus! {

/// 256 to the power `n`.
pub open spec fn pow256(n: nat) -> nat
    decreases n,
{
    if n == 0 {
        1
    } else {
        256 * pow256((n - 1) as nat)
    }
}

/// The unsigned integer that `s` encodes, most significant byte first.
pub open spec fn be_value(s: Seq<u8>) -> nat
    decreases s.len(),
{
    if s.len() == 0 {
        0
    } else {
        be_value(s.drop_last()) * 256 + s.last() as nat
    }
}

/// The `n` low-order bytes of `v`, most significant first.
pub open spec fn be_bytes(v: nat, n: nat) -> Seq<u8>
    decreases n,
{
    if n == 0 {
        Seq::empty()
    } else {
        be_bytes(v / 256, (n - 1) as nat).push((v % 256) as u8)
    }
}

/// The two widths a numeric cell value may have.
pub open spec fn is_cell_width(n: nat) -> bool {
    n == 4 || n == 8
}

/// What decoding a property value gives.
pub open spec fn decode(s: Seq<u8>) -> Option<u64> {
    if is_cell_width(s.len()) {
        Some(be_value(s) as u64)
    } else {
        None
    }
}

pub proof fn lemma_pow256_positive(n: nat)
    ensures
        pow256(n) > 0,
    decreases n,
{
    if n > 0 {
        lemma_pow256_positive((n - 1) as nat);
    }
}

pub proof fn lemma_be_value_bound(s: Seq<u8>)
    ensures
        be_value(s) < pow256(s.len()),
    decreases s.len(),
{
    if s.len() > 0 {
        let t = s.drop_last();
        lemma_be_value_bound(t);
        let a = be_value(t);
        let p = pow256(t.len());
        let b = s.last() as nat;
        assert(a * 256 + b < 256 * p) by (nonlinear_arith)
            requires
                a < p,
                b < 256,
        ;
    }
}

proof fn lemma_pow256_values()
    ensures
        pow256(4) == 0x1_0000_0000,
        pow256(8) == 0x1_0000_0000_0000_0000,
{
    reveal_with_fuel(pow256, 9);
}

/// A value of a cell width fits in 64 bits.
pub proof fn lemma_cell_fits(s: Seq<u8>)
    requires
        is_cell_width(s.len()),
    ensures
        be_value(s) <= u64::MAX,
{
    lemma_be_value_bound(s);
    lemma_pow256_values();
}

/// Encoding then decoding gives the value back, reduced to the width.
pub proof fn lemma_value_of_bytes(v: nat, n: nat)
    ensures
        be_bytes(v, n).len() == n,
        be_value(be_bytes(v, n)) == v % pow256(n),
    decreases n,
{
    if n > 0 {
        let m = (n - 1) as nat;
        lemma_value_of_bytes(v / 256, m);
        lemma_pow256_positive(m);
        let s = be_bytes(v, n);
        assert(s.drop_last() =~= be_bytes(v / 256, m));
        vstd::arithmetic::div_mod::lemma_mod_breakdown(v as int, 256, pow256(m) as int);
        assert(256 * ((v / 256) % pow256(m)) + v % 256 == v % (256 * pow256(m)));
    }
}

/// Decoding then encoding at the same width gives the bytes back.
pub proof fn lemma_bytes_of_value(s: Seq<u8>)
    ensures
        be_bytes(be_value(s), s.len()) == s,
    decreases s.len(),
{
    if s.len() > 0 {
        let t = s.drop_last();
        lemma_bytes_of_value(t);
        let a = be_value(t);
        let b = s.last() as nat;
        assert((a * 256 + b) / 256 == a && (a * 256 + b) % 256 == b) by {
            vstd::arithmetic::div_mod::lemma_fundamental_div_mod_converse(
                (a * 256 + b) as int,
                256,
                a as int,
                b as int,
            );
        }
        assert(be_bytes(be_value(s), s.len()) =~= s);
    }
}

/// Round trip of the codec: at a cell width, decoding and re-encoding
/// reproduces the bytes, and encoding a value that fits and decoding it
/// reproduces the value.
pub proof fn lemma_cell_round_trip(s: Seq<u8>, v: u64)
    requires
        is_cell_width(s.len()),
        v < pow256(s.len()),
    ensures
        decode(s) is Some,
        be_bytes(decode(s)->0 as nat, s.len()) == s,
        decode(be_bytes(v as nat, s.len())) == Some(v),
{
    lemma_cell_fits(s);
    lemma_bytes_of_value(s);
    lemma_value_of_bytes(v as nat, s.len());
    vstd::arithmetic::div_mod::lemma_small_mod(v as nat, pow256(s.len()));
}

/// Decodes a 4- or 8-byte big-endian cell value; any other length is refused.
pub fn convert_number(data: &[u8]) -> (r: Option<u64>)
    ensures
        r == decode(data@),
{
    let n = data.len();
    if n != 4 && n != 8 {
        return None;
    }
    let mut acc: u64 = 0;
    let mut i: usize = 0;
    proof {
        lemma_cell_fits(data@);
    }
    while i < n
        invariant
            n == data@.len(),
            is_cell_width(n as nat),
            i <= n,
            acc as nat == be_value(data@.subrange(0, i as int)),
        decreases n - i,
    {
        let ghost pre = data@.subrange(0, i as int);
        let ghost next = data@.subrange(0, i + 1);
        proof {
            assert(next.drop_last() =~= pre);
            lemma_be_value_bound(next);
            lemma_pow256_values();
            assert(pow256(next.len()) <= pow256(8)) by {
                lemma_pow256_monotone(next.len(), 8);
            }
        }
        acc = acc * 256 + data[i] as u64;
        i = i + 1;
    }
    proof {
        assert(data@.subrange(0, n as int) =~= data@);
    }
    Some(acc)
}

proof fn lemma_pow256_monotone(a: nat, b: nat)
    requires
        a <= b,
    ensures
        pow256(a) <= pow256(b),
    decreases b,
{
    if a < b {
        lemma_pow256_monotone(a, (b - 1) as nat);
    }
}

/// Overwrites a 4- or 8-byte cell in place with the low bytes of `value`,
/// most significant first; any other length is refused and left as it is.
pub fn write_number(data: &mut Vec<u8>, value: u64) -> (r: Result<(), ()>)
    ensures
        r is Ok <==> is_cell_width(old(data)@.len()),
        r is Ok ==> final(data)@ == be_bytes(value as nat, old(data)@.len()),
        r is Err ==> final(data)@ == old(data)@,
{
    let n = data.len();
    if n != 4 && n != 8 {
        return Err(());
    }
    let mut v: u64 = value;
    let mut i: usize = n;
    while i > 0
        invariant
            n == data@.len(),
            i <= n,
            be_bytes(value as nat, n as nat) == be_bytes(v as nat, i as nat) + data@.subrange(
                i as int,
                n as int,
            ),
        decreases i,
    {
        let ghost old_v = v;
        let ghost old_tail = data@.subrange(i as int, n as int);
        let b = (v % 256) as u8;
        v = v / 256;
        i = i - 1;
        data[i] = b;
        proof {
            assert(data@.subrange(i as int, n as int) =~= seq![b] + old_tail);
            assert(be_bytes(old_v as nat, (i + 1) as nat) == be_bytes(v as nat, i as nat).push(b));
            assert(be_bytes(v as nat, i as nat) + data@.subrange(i as int, n as int)
                =~= be_bytes(old_v as nat, (i + 1) as nat) + old_tail);
        }
    }
    proof {
        assert(data@.subrange(0, n as int) =~= data@);
        assert(be_bytes(v as nat, 0) + data@ =~= data@);
    }
    Ok(())
}

} // verus!
