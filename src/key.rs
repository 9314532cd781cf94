use vstd::prelude::*;

verus! {

/// The eight bytes that stand for a key: its first eight bytes, zero-padded,
/// with the key's length (modulo 256) exclusive-or'ed into the first one.
pub open spec fn key_window(name: Seq<u8>) -> Seq<u8> {
    Seq::new(
        8,
        |i: int|
            {
                let b = if i < name.len() {
                    name[i]
                } else {
                    0u8
                };
                if i == 0 {
                    b ^ ((name.len() % 256) as u8)
                } else {
                    b
                }
            },
    )
}

/// The little-endian value of a byte sequence.
pub open spec fn le_value(w: Seq<u8>) -> nat
    decreases w.len(),
{
    if w.len() == 0 {
        0
    } else {
        w[0] as nat + 256 * le_value(w.drop_first())
    }
}

pub open spec fn pow256(n: nat) -> nat
    decreases n,
{
    if n == 0 {
        1
    } else {
        256 * pow256((n - 1) as nat)
    }
}

/// The fingerprint of a key: its window read as a 64-bit little-endian integer.
pub open spec fn fingerprint(name: Seq<u8>) -> u64 {
    le_value(key_window(name)) as u64
}

proof fn lemma_pow256_mono(a: nat, b: nat)
    requires
        a <= b,
    ensures
        pow256(a) <= pow256(b),
    decreases b,
{
    if a < b {
        lemma_pow256_mono(a, (b - 1) as nat);
    }
}

fn window_byte(name: &[u8], i: usize) -> (r: u8)
    requires
        i < 8,
    ensures
        r == key_window(name@)[i as int],
{
    let b = if i < name.len() {
        name[i]
    } else {
        0u8
    };
    if i == 0 {
        b ^ ((name.len() % 256) as u8)
    } else {
        b
    }
}

/// Folds a key of any length into a fixed-width fingerprint. Distinct keys
/// sharing their first eight bytes and their length modulo 256 collide.
pub fn str_to_key(name: &[u8]) -> (r: u64)
    ensures
        r == fingerprint(name@),
{
    let ghost w = key_window(name@);
    let mut acc: u64 = 0;
    let mut i: usize = 8;
    assert(w.subrange(8, 8) =~= Seq::<u8>::empty());
    while i > 0
        invariant
            i <= 8,
            w == key_window(name@),
            acc as nat == le_value(w.subrange(i as int, 8)),
            (acc as nat) < pow256((8 - i) as nat),
        decreases i,
    {
        let b = window_byte(name, i - 1);
        proof {
            lemma_pow256_mono((8 - i) as nat, 7);
            reveal_with_fuel(pow256, 8);
            assert(pow256(7) == 0x100000000000000nat);
            assert(w.subrange(i - 1, 8).drop_first() =~= w.subrange(i as int, 8));
            assert(pow256((8 - (i - 1)) as nat) == 256 * pow256((8 - i) as nat));
            assert(b as nat + 256 * (acc as nat) < 256 * pow256((8 - i) as nat)) by (nonlinear_arith)
                requires
                    (acc as nat) < pow256((8 - i) as nat),
                    b < 256,
            ;
        }
        acc = acc * 256 + b as u64;
        i = i - 1;
    }
    assert(w.subrange(0, 8) =~= w);
    acc
}

} // verus!
