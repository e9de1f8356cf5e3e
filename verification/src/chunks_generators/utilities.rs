use vstd::prelude::*;
use std::rc::Rc;
use rand::rngs::StdRng;
use rand::{Rng, SeedableRng};

use crate::rc_util::clone_rc;
use crate::world::world_holder::{Color, CommonVoxelData, Material, Voxel, VoxelDataset};

verus! {

/// One step of drawing `n` distinct random values: `values` (no value twice)
/// takes `draw` unless it holds it already, and the answer says whether the
/// `n` values are complete. The caller draws again until it is.
pub fn take_unique_draw(values: &mut Vec<u32>, draw: u32, n: usize) -> (done: bool)
    requires
        old(values)@.no_duplicates(),
        old(values).len() < n,
    ensures
        final(values)@ == if old(values)@.contains(draw) { old(values)@ } else { old(values)@.push(draw) },
        final(values)@.no_duplicates(),
        final(values).len() <= n,
        done == (final(values).len() == n),
{
    let mut i: usize = 0;
    while i < values.len()
        invariant
            i <= values.len(),
            values@ == old(values)@,
            values@.no_duplicates(),
            values.len() < n,
            forall|k: int| 0 <= k < i ==> values@[k] != draw,
        decreases values.len() - i,
    {
        if values[i] == draw {
            proof {
                assert(values@.contains(draw));
            }
            return values.len() == n;
        }
        i = i + 1;
    }
    proof {
        assert(!values@.contains(draw));
    }
    values.push(draw);
    values.len() == n
}

#[verifier::external_type_specification]
#[verifier::external_body]
pub struct ExStdRng(StdRng);

/// `StdRng::seed_from_u64`: a generator seeded from `seed`. Nothing is stated
/// of it: the draws it will give are not modelled here.
#[verifier::external_body]
fn seeded_rng(seed: u64) -> StdRng {
    StdRng::seed_from_u64(seed)
}

/// `Rng::random::<u32>` on `rng`: its next draw, which the contract leaves
/// free (any `u32` may come).
#[verifier::external_body]
fn next_random_u32(rng: &mut StdRng) -> u32 {
    rng.random()
}

/// `n` distinct random numbers from the generator seeded with `seed`, in the
/// order in which they were first drawn. The draws are repeated until `n`
/// distinct values came, at most `u64::MAX` times; whether they all come
/// rests on the draws, so only that no value repeats and that there are at
/// most `n` is stated.
pub fn generate_unique(seed: u64, n: usize) -> (r: Vec<u32>)
    requires
        n <= 0x1_0000_0000,
    ensures
        r@.no_duplicates(),
        r.len() <= n,
{
    let mut rng = seeded_rng(seed);
    let mut values: Vec<u32> = Vec::with_capacity(n);
    if n == 0 {
        return values;
    }
    let mut budget: u64 = u64::MAX;
    while budget > 0
        invariant
            values@.no_duplicates(),
            values.len() < n,
        decreases budget,
    {
        budget = budget - 1;
        let draw = next_random_u32(&mut rng);
        if take_unique_draw(&mut values, draw, n) {
            return values;
        }
    }
    values
}

/// The name under which `create_voxel` files the voxel of a color and a
/// material: `c:<color>|m:<material>`.
pub open spec fn voxel_key(color: Seq<char>, material: Seq<char>) -> Seq<char> {
    seq!['c', ':'] + color + seq!['|', 'm', ':'] + material
}

/// Formats the voxel name `c:<color>|m:<material>`.
fn format_voxel_key(color: &String, material: &String) -> (r: String)
    ensures
        r@ == voxel_key(color@, material@),
{
    proof {
        reveal_strlit("c:");
        reveal_strlit("|m:");
    }
    let mut key = String::from_str("c:");
    key.append(color.as_str());
    key.append("|m:");
    key.append(material.as_str());
    assert(key@ =~= voxel_key(color@, material@));
    key
}

/// `after` and `r` are what `create_voxel` makes of `before` for the named
/// material and color: the voxel filed under their voxel name where there is
/// one, and otherwise a new voxel, filed with its material, color and common
/// data.
pub open spec fn files_voxel(
    before: VoxelDataset,
    after: VoxelDataset,
    material_name: Seq<char>,
    material: Material,
    color_name: Seq<char>,
    color: Color,
    r: Rc<Voxel>,
) -> bool {
    let key = voxel_key(color_name, material_name);
    if before.voxels@.contains_key(key) {
        &&& r == before.voxels@[key]
        &&& after.materials@ == before.materials@
        &&& after.colors@ == before.colors@
        &&& after.common_voxel_dataset@ == before.common_voxel_dataset@
        &&& after.voxels@ == before.voxels@
    } else {
        let materials = if before.materials@.contains_key(material_name) {
            before.materials@
        } else {
            before.materials@.insert(material_name, Rc::new(material))
        };
        let colors = if before.colors@.contains_key(color_name) {
            before.colors@
        } else {
            before.colors@.insert(color_name, Rc::new(color))
        };
        let common = CommonVoxelData { _material: materials[material_name], _color: colors[color_name] };
        &&& after.materials@ == materials
        &&& after.colors@ == colors
        &&& after.common_voxel_dataset@ == before.common_voxel_dataset@.insert(key, Rc::new(common))
        &&& after.voxels@ == before.voxels@.insert(key, r)
        &&& r._individual_data@ == Seq::<String>::empty()
        &&& r._common_data == common
    }
}

/// The voxel of the named color and material, taken from `dataset` where it
/// is filed already and otherwise made and filed: the material and the color
/// are filed under their names unless a value holds the name, and the common
/// data and the voxel under the voxel name.
pub fn create_voxel(dataset: &mut VoxelDataset, material: (String, Material), color: (String, Color)) -> (r: Rc<Voxel>)
    ensures
        files_voxel(*old(dataset), *final(dataset), material.0@, material.1, color.0@, color.1, r),
{
    let composed_key = format_voxel_key(&color.0, &material.0);

    if let Some(voxel) = dataset.voxels.get(&composed_key) {
        return clone_rc(voxel);
    }

    dataset.materials.insert_if_absent(material.0.clone(), Rc::new(material.1));
    dataset.colors.insert_if_absent(color.0.clone(), Rc::new(color.1));

    let material_rc = match dataset.materials.get(&material.0) {
        Some(m) => clone_rc(m),
        None => vstd::pervasive::unreached(),
    };
    let color_rc = match dataset.colors.get(&color.0) {
        Some(c) => clone_rc(c),
        None => vstd::pervasive::unreached(),
    };
    dataset.common_voxel_dataset.insert(composed_key.clone(), Rc::new(CommonVoxelData {
        _material: material_rc,
        _color: color_rc,
    }));

    let common_rc = match dataset.common_voxel_dataset.get(&composed_key) {
        Some(c) => clone_rc(c),
        None => vstd::pervasive::unreached(),
    };
    dataset.voxels.insert(composed_key.clone(), Rc::new(Voxel {
        _individual_data: Vec::new(),
        _common_data: common_rc,
    }));

    match dataset.voxels.get(&composed_key) {
        Some(v) => clone_rc(v),
        None => vstd::pervasive::unreached(),
    }
}

/// Law: once `create_voxel` has filed the voxel of a color name and a
/// material name, a later call with the same names (whatever material and
/// color values it brings) hands back that same voxel and leaves the dataset
/// as it was.
pub proof fn law_create_voxel_reuses(
    d0: VoxelDataset,
    d1: VoxelDataset,
    d2: VoxelDataset,
    material_name: Seq<char>,
    m1: Material,
    m2: Material,
    color_name: Seq<char>,
    c1: Color,
    c2: Color,
    r1: Rc<Voxel>,
    r2: Rc<Voxel>,
)
    requires
        files_voxel(d0, d1, material_name, m1, color_name, c1, r1),
        files_voxel(d1, d2, material_name, m2, color_name, c2, r2),
    ensures
        r2 == r1,
        d2.materials@ == d1.materials@,
        d2.colors@ == d1.colors@,
        d2.common_voxel_dataset@ == d1.common_voxel_dataset@,
        d2.voxels@ == d1.voxels@,
{
}

/// `a * b` modulo `2^32`.
pub open spec fn mul_mod_u32(a: u32, b: u32) -> u32 {
    ((a as nat * b as nat) % 0x1_0000_0000) as u32
}

/// The integer hash of `x`: xor with its upper half, multiply by `0x7feb352d`,
/// xor with itself shifted right by 15, multiply by `0x846ca68b`, xor with its
/// upper half; products are taken modulo `2^32`.
pub open spec fn hash_u32_spec(x: u32) -> u32 {
    let a = x ^ (x >> 16u32);
    let b = mul_mod_u32(a, 0x7feb_352d);
    let c = b ^ (b >> 15u32);
    let d = mul_mod_u32(c, 0x846c_a68b);
    d ^ (d >> 16u32)
}

/// The integer hash of `x` (see `hash_u32_spec`).
pub fn hash_u32(x: u32) -> (r: u32)
    ensures
        r == hash_u32_spec(x),
{
    let mut x = x;
    x ^= x >> 16;
    x = x.wrapping_mul(0x7feb_352d);
    x ^= x >> 15;
    x = x.wrapping_mul(0x846c_a68b);
    x ^= x >> 16;
    x
}

/// Multiplying modulo `2^32` by `k` is undone by multiplying by `k_inverse`
/// when `k * k_inverse` is one more than a multiple `q` of `2^32`.
proof fn lemma_mul_mod_undone(a: u32, k: u32, k_inverse: u32, q: nat)
    requires
        k as nat * k_inverse as nat == 1 + q * 0x1_0000_0000,
    ensures
        mul_mod_u32(mul_mod_u32(a, k), k_inverse) == a,
{
    let m: int = 0x1_0000_0000;
    let p: int = a as int * k as int;
    vstd::arithmetic::div_mod::lemma_mul_mod_noop_left(p, k_inverse as int, m);
    assert(p * k_inverse == m * (a * q) + a) by (nonlinear_arith)
        requires
            p == a as int * k as int,
            k as nat * k_inverse as nat == 1 + q * 0x1_0000_0000,
            m == 0x1_0000_0000,
    ;
    vstd::arithmetic::div_mod::lemma_mod_multiples_vanish(a * q, a as int, m);
    vstd::arithmetic::div_mod::lemma_small_mod(a as nat, m as nat);
    assert(mul_mod_u32(a, k) as int == p % m);
}

/// Law: `hash_u32` maps different inputs to different hashes (each of its
/// steps can be undone).
pub proof fn law_hash_u32_injective(a: u32, b: u32)
    requires
        hash_u32_spec(a) == hash_u32_spec(b),
    ensures
        a == b,
{
    assert forall|x: u32| #[trigger] hash_u32_unmixed(hash_u32_spec(x)) == x by {
        let s1 = x ^ (x >> 16u32);
        let s2 = mul_mod_u32(s1, 0x7feb_352d);
        let s3 = s2 ^ (s2 >> 15u32);
        let s4 = mul_mod_u32(s3, 0x846c_a68b);
        let h = s4 ^ (s4 >> 16u32);
        assert((h ^ (h >> 16u32)) == s4) by (bit_vector)
            requires
                h == s4 ^ (s4 >> 16u32),
        ;
        lemma_mul_mod_undone(s3, 0x846c_a68b, 0x4302_1123, 581534029);
        assert((s3 ^ (s3 >> 15u32) ^ (s3 >> 30u32)) == s2) by (bit_vector)
            requires
                s3 == s2 ^ (s2 >> 15u32),
        ;
        lemma_mul_mod_undone(s1, 0x7feb_352d, 0x1d69_e2a5, 246582719);
        assert((s1 ^ (s1 >> 16u32)) == x) by (bit_vector)
            requires
                s1 == x ^ (x >> 16u32),
        ;
    }
    assert(hash_u32_unmixed(hash_u32_spec(a)) == a);
    assert(hash_u32_unmixed(hash_u32_spec(b)) == b);
}

/// The steps of `hash_u32_spec` undone in reverse order.
pub open spec fn hash_u32_unmixed(h: u32) -> u32 {
    let s4 = h ^ (h >> 16u32);
    let s3 = mul_mod_u32(s4, 0x4302_1123);
    let s2 = s3 ^ (s3 >> 15u32) ^ (s3 >> 30u32);
    let s1 = mul_mod_u32(s2, 0x1d69_e2a5);
    s1 ^ (s1 >> 16u32)
}

} // verus!
