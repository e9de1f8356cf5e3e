use vstd::prelude::*;

verus! {

/// One step of the seed: times 1664525 plus 1013904223, modulo `2^32`.
pub open spec fn next_seed(seed: u32) -> u32 {
    ((seed as nat * 1664525 + 1013904223) % 0x1_0000_0000) as u32
}

/// The seed after `k` steps.
pub open spec fn seed_after(seed: u32, k: nat) -> u32
    decreases k,
{
    if k == 0 {
        seed
    } else {
        next_seed(seed_after(seed, (k - 1) as nat))
    }
}

/// The shuffle of `p` from position `i` down to 1: each step advances the
/// seed, then swaps position `i` with position `(seed + 31) mod (i + 1)`.
pub open spec fn shuffle(p: Seq<u8>, seed: u32, i: nat) -> Seq<u8>
    decreases i,
{
    if i == 0 {
        p
    } else {
        let s = next_seed(seed);
        let j = ((s + 31) as int % (i + 1) as int) as int;
        shuffle(p.update(i as int, p[j]).update(j, p[i as int]), s, (i - 1) as nat)
    }
}

/// The bytes 0 to 255 in order.
pub open spec fn identity_bytes() -> Seq<u8> {
    Seq::new(256, |k: int| k as u8)
}

/// No byte occurs twice in `p`.
pub open spec fn distinct_bytes(p: Seq<u8>) -> bool {
    forall|a: int, b: int| 0 <= a < b < p.len() ==> #[trigger] p[a] != #[trigger] p[b]
}

proof fn lemma_shuffle_distinct(p: Seq<u8>, seed: u32, i: nat)
    requires
        p.len() == 256,
        i < 256,
        distinct_bytes(p),
    ensures
        shuffle(p, seed, i).len() == 256,
        distinct_bytes(shuffle(p, seed, i)),
    decreases i,
{
    if i > 0 {
        let s = next_seed(seed);
        let j = ((s + 31) as int % (i + 1) as int) as int;
        let q = p.update(i as int, p[j]).update(j, p[i as int]);
        assert forall|a: int, b: int| 0 <= a < b < q.len() implies #[trigger] q[a] != #[trigger] q[b] by {
            let oa = if a == i { j } else if a == j { i as int } else { a };
            let ob = if b == i { j } else if b == j { i as int } else { b };
            assert(q[a] == p[oa] && q[b] == p[ob]);
            if oa < ob {
                assert(p[oa] != p[ob]);
            } else {
                assert(p[ob] != p[oa]);
            }
        }
        lemma_shuffle_distinct(q, s, (i - 1) as nat);
    }
}

/// Law: one shuffle step from `i` (at least 1) advances the seed and swaps
/// position `i` with position `(next seed + 31) mod (i + 1)`, which may be `i`
/// itself; the rest of the shuffle goes on from `i - 1` with the new seed.
pub proof fn law_shuffle_step(p: Seq<u8>, seed: u32, i: nat)
    requires
        1 <= i < p.len(),
    ensures
        ({
            let s = next_seed(seed);
            let j = (s + 31) as int % (i + 1) as int;
            shuffle(p, seed, i) == shuffle(p.update(i as int, p[j]).update(j, p[i as int]), s, (i - 1) as nat)
        }),
{
}

/// Law: shuffling down from `i` leaves every position above `i` as it was.
pub proof fn law_shuffle_keeps_above(p: Seq<u8>, seed: u32, i: nat, k: int)
    requires
        i < p.len(),
        i < k < p.len(),
    ensures
        shuffle(p, seed, i).len() == p.len(),
        shuffle(p, seed, i)[k] == p[k],
    decreases i,
{
    if i > 0 {
        let s = next_seed(seed);
        let j = ((s + 31) as int % (i + 1) as int) as int;
        let q = p.update(i as int, p[j]).update(j, p[i as int]);
        law_shuffle_keeps_above(q, s, (i - 1) as nat, k);
    }
}

/// Law: after shuffling down from `i` (at least 1), position `i` holds the
/// entry of `p` at `(next seed + 31) mod (i + 1)`, the position its step
/// picked; later steps never touch it.
pub proof fn law_shuffle_top(p: Seq<u8>, seed: u32, i: nat)
    requires
        1 <= i < p.len(),
    ensures
        shuffle(p, seed, i)[i as int] == p[(next_seed(seed) + 31) as int % (i + 1) as int],
{
    let s = next_seed(seed);
    let j = ((s + 31) as int % (i + 1) as int) as int;
    let q = p.update(i as int, p[j]).update(j, p[i as int]);
    assert(q[i as int] == p[j]);
    assert(shuffle(p, seed, i) == shuffle(q, s, (i - 1) as nat));
    law_shuffle_keeps_above(q, s, (i - 1) as nat, i as int);
}

/// Permutation table of 3D simplex noise.
pub struct SimplexNoise {
    perm: [u8; 512],
}

impl SimplexNoise {
    /// The table: the bytes 0 to 255 shuffled by `seed`, written twice.
    pub closed spec fn table(self) -> Seq<u8> {
        self.perm@
    }

    /// The table seeded by `seed`; each step of the seed must stay 31 below
    /// `u32::MAX`, as the position it picks adds 31 to it.
    pub fn new(seed: u32) -> (r: Self)
        requires
            forall|k: nat| 1 <= k <= 255 ==> #[trigger] seed_after(seed, k) + 31 <= u32::MAX,
        ensures
            r.table().len() == 512,
            forall|k: int| 0 <= k < 512 ==> #[trigger] r.table()[k] == shuffle(identity_bytes(), seed, 255)[k % 256],
            r.table()[255] as int == (next_seed(seed) + 31) % 256,
            r.table()[511] as int == (next_seed(seed) + 31) % 256,
    {
        let mut perm = [0u8; 512];
        let mut p = [0u8; 256];

        let mut i: usize = 0;
        while i < 256
            invariant
                i <= 256,
                forall|k: int| 0 <= k < i ==> #[trigger] p@[k] == k as u8,
            decreases 256 - i,
        {
            p[i] = i as u8;
            i = i + 1;
        }
        assert(p@ =~= identity_bytes());

        let mut seed_value: u32 = seed;
        let mut i: usize = 255;
        let ghost mut steps: nat = 0;
        while i >= 1
            invariant
                i <= 255,
                steps == 255 - i,
                seed_value == seed_after(seed, steps),
                forall|k: nat| 1 <= k <= 255 ==> #[trigger] seed_after(seed, k) + 31 <= u32::MAX,
                shuffle(p@, seed_value, i as nat) == shuffle(identity_bytes(), seed, 255),
            decreases i,
        {
            seed_value = seed_value.wrapping_mul(1664525u32);
            seed_value = seed_value.wrapping_add(1013904223u32);
            proof {
                steps = steps + 1;
                assert(seed_value == next_seed(seed_after(seed, (steps - 1) as nat))) by {
                    let s0 = seed_after(seed, (steps - 1) as nat) as nat;
                    vstd::arithmetic::div_mod::lemma_add_mod_noop((s0 * 1664525) as int, 1013904223, 0x1_0000_0000);
                    vstd::arithmetic::div_mod::lemma_small_mod(1013904223, 0x1_0000_0000);
                }
                assert(seed_value == seed_after(seed, steps));
                assert(seed_value + 31 <= u32::MAX);
            }
            let j = (seed_value + 31) as usize % (i + 1);
            let ghost before = p@;
            let t = p[i];
            p[i] = p[j];
            p[j] = t;
            assert(p@ =~= before.update(i as int, before[j as int]).update(j as int, before[i as int]));
            i = i - 1;
        }

        let mut k: usize = 0;
        while k < 512
            invariant
                k <= 512,
                forall|m: int| 0 <= m < k ==> #[trigger] perm@[m] == p@[m % 256],
            decreases 512 - k,
        {
            proof {
                assert((k & 255usize) == k % 256) by (bit_vector);
            }
            perm[k] = p[k & 255];
            k = k + 1;
        }
        assert(shuffle(p@, seed_value, 0) == p@);
        proof {
            law_table_last_entry_picked(perm@, seed);
        }

        Self { perm }
    }
}

/// The first 256 entries of the table hold each byte once.
pub proof fn law_table_is_a_permutation(noise: SimplexNoise, seed: u32)
    requires
        noise.table().len() == 512,
        forall|k: int| 0 <= k < 512 ==> #[trigger] noise.table()[k] == shuffle(identity_bytes(), seed, 255)[k % 256],
    ensures
        distinct_bytes(noise.table().subrange(0, 256)),
        forall|k: int| 0 <= k < 256 ==> #[trigger] noise.table()[k + 256] == noise.table()[k],
{
    let id = identity_bytes();
    assert forall|a: int, b: int| 0 <= a < b < id.len() implies #[trigger] id[a] != #[trigger] id[b] by {}
    lemma_shuffle_distinct(id, seed, 255);
    let s = shuffle(id, seed, 255);
    let t = noise.table().subrange(0, 256);
    assert forall|a: int, b: int| 0 <= a < b < t.len() implies #[trigger] t[a] != #[trigger] t[b] by {
        assert(noise.table()[a] == s[a % 256]);
        assert(noise.table()[b] == s[b % 256]);
        assert(s[a] != s[b]);
    }
    assert forall|k: int| 0 <= k < 256 implies #[trigger] noise.table()[k + 256] == noise.table()[k] by {
        assert(noise.table()[k + 256] == s[(k + 256) % 256]);
        assert(noise.table()[k] == s[k % 256]);
    }
}

/// Law: the last entry of each half of the table is the byte that the first
/// shuffle step picked, `(next seed + 31) mod 256`.
pub proof fn law_table_last_entry_picked(table: Seq<u8>, seed: u32)
    requires
        table.len() == 512,
        forall|k: int| 0 <= k < 512 ==> #[trigger] table[k] == shuffle(identity_bytes(), seed, 255)[k % 256],
    ensures
        table[255] as int == (next_seed(seed) + 31) % 256,
        table[511] as int == (next_seed(seed) + 31) % 256,
{
    let id = identity_bytes();
    law_shuffle_top(id, seed, 255);
    let j = ((next_seed(seed) + 31) % 256) as int;
    assert(id[j] == j as u8);
    assert(table[255] == shuffle(id, seed, 255)[255int % 256]);
    assert(table[511] == shuffle(id, seed, 255)[511int % 256]);
}

} // verus!
