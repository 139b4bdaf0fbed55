use vstd::prelude::*;
use crate::atom::Atom;
use crate::bond::{Bond, BondOrder};
use crate::graph::Graph;
use crate::ranks::degrees;

verus! {

/// The value that every hash starts from.
pub const SEED: u64 = 14695981039346656037;

/// The multiplier of the mixing step.
pub const PRIME: u64 = 1099511628211;

/// One step of hashing: `x` mixed into `h`.
pub open spec fn mix(h: u64, x: u64) -> u64 {
    (h ^ x).wrapping_mul(PRIME)
}

pub open spec fn order_code(o: BondOrder) -> u64 {
    match o {
        BondOrder::Single => 1,
        BondOrder::Double => 2,
        BondOrder::Triple => 3,
        BondOrder::Aromatic => 4,
    }
}

/// The hash of what atom `a` is by itself: its element, charge, aromaticity and number
/// of bonds.
pub open spec fn atom_code(g: Graph, a: int) -> u64 {
    let x = g.atoms[a];
    mix(
        mix(
            mix(mix(SEED, x.element as u64), (x.charge + 128) as u64),
            if x.aromatic {
                1u64
            } else {
                0u64
            },
        ),
        g.degree(a) as u64,
    )
}

/// `s`, which is sorted, with `x` put in its place, behind what equals it.
pub open spec fn put_in(s: Seq<u64>, x: u64) -> Seq<u64>
    decreases s.len(),
{
    if s.len() == 0 {
        seq![x]
    } else if s.last() <= x {
        s.push(x)
    } else {
        put_in(s.drop_last(), x).push(s.last())
    }
}

/// For the bonds of atom `a` among the first `k`: the hash of each bond's order and of
/// the neighbour's surroundings `h`, all of them sorted.
pub open spec fn pair_codes(g: Graph, h: Seq<u64>, a: int, k: int) -> Seq<u64>
    decreases k,
{
    if k <= 0 {
        Seq::empty()
    } else if g.bonds[k - 1].touches(a) {
        put_in(
            pair_codes(g, h, a, k - 1),
            mix(order_code(g.bonds[k - 1].order), h[g.bonds[k - 1].other(a)]),
        )
    } else {
        pair_codes(g, h, a, k - 1)
    }
}

/// `codes` mixed into `seed`, one after the other.
pub open spec fn mix_all(seed: u64, codes: Seq<u64>) -> u64
    decreases codes.len(),
{
    if codes.len() == 0 {
        seed
    } else {
        mix(mix_all(seed, codes.drop_last()), codes.last())
    }
}

/// The surroundings of every atom one bond further out than `h`, at radius `r`: the
/// atom's own hash and the radius, and then the sorted hashes of its bonds and
/// neighbours.
pub open spec fn grow(g: Graph, h: Seq<u64>, r: u64) -> Seq<u64> {
    Seq::new(
        g.atoms.len(),
        |a: int| mix_all(mix(h[a], r), pair_codes(g, h, a, g.bonds.len() as int)),
    )
}

/// For every atom, the hash of its surroundings up to `r` bonds away.
pub open spec fn layer(g: Graph, r: nat) -> Seq<u64>
    decreases r,
{
    if r == 0 {
        Seq::new(g.atoms.len(), |a: int| atom_code(g, a))
    } else {
        grow(g, layer(g, (r - 1) as nat), r as u64)
    }
}

/// The sorted list `s` of different hashes, with `x` added where it is new.
pub open spec fn add_hash(s: Seq<u64>, x: u64) -> Seq<u64> {
    if s.contains(x) {
        s
    } else {
        put_in(s, x)
    }
}

pub open spec fn add_layer(s: Seq<u64>, h: Seq<u64>, k: int) -> Seq<u64>
    decreases k,
{
    if k <= 0 {
        s
    } else {
        add_hash(add_layer(s, h, k - 1), h[k - 1])
    }
}

/// The different hashes of the surroundings of all atoms at all radii up to `r`, sorted.
pub open spec fn hashes_upto(g: Graph, r: nat) -> Seq<u64>
    decreases r,
{
    add_layer(
        if r == 0 {
            Seq::empty()
        } else {
            hashes_upto(g, (r - 1) as nat)
        },
        layer(g, r),
        g.atoms.len() as int,
    )
}

/// Whether one of the first `k` hashes falls on bit `i` of `size` bits.
pub open spec fn bit_set(hashes: Seq<u64>, size: int, i: int, k: int) -> bool {
    exists|j: int| 0 <= j < k && #[trigger] hashes[j] % (size as u64) == i
}

/// The bit vector of `size` bits in which each hash sets the bit at its remainder by
/// `size`.
pub open spec fn fold_bits(hashes: Seq<u64>, size: usize) -> Seq<bool> {
    Seq::new(size as nat, |i: int| bit_set(hashes, size as int, i, hashes.len() as int))
}

/// What a fingerprint holds.
pub ghost struct FingerprintView {
    pub bits: Seq<bool>,
    pub hashes: Seq<u64>,
}

/// The fingerprint of a graph: the hashes of the surroundings of its atoms up to
/// `radius` bonds away, and the bit vector of `size` bits that they fold into.
pub open spec fn fingerprint_of(g: Graph, radius: u32, size: usize) -> FingerprintView {
    FingerprintView {
        bits: fold_bits(hashes_upto(g, radius as nat), size),
        hashes: hashes_upto(g, radius as nat),
    }
}

/// A fixed-length bit vector that sums up the surroundings of the atoms of a molecule,
/// with the hashes that it was folded from.
#[derive(Clone, Debug, PartialEq, Eq)]
pub struct Fingerprint {
    pub bits: Vec<bool>,
    pub hashes: Vec<u64>,
}

impl Fingerprint {
    pub open spec fn view(&self) -> FingerprintView {
        FingerprintView { bits: self.bits@, hashes: self.hashes@ }
    }
}

fn mixed(h: u64, x: u64) -> (r: u64)
    ensures
        r == mix(h, x),
{
    (h ^ x).wrapping_mul(PRIME)
}

fn code_of(o: BondOrder) -> (r: u64)
    ensures
        r == order_code(o),
{
    match o {
        BondOrder::Single => 1,
        BondOrder::Double => 2,
        BondOrder::Triple => 3,
        BondOrder::Aromatic => 4,
    }
}

proof fn lemma_put_in(s: Seq<u64>, x: u64, at: int)
    requires
        0 <= at <= s.len(),
        forall|i: int| at <= i < s.len() ==> s[i] > x,
        at > 0 ==> s[at - 1] <= x,
    ensures
        put_in(s, x) == s.insert(at, x),
    decreases s.len(),
{
    if s.len() == 0 {
        assert(s.insert(at, x) =~= seq![x]);
    } else if s.last() <= x {
        assert(at == s.len());
        assert(s.insert(at, x) =~= s.push(x));
    } else {
        lemma_put_in(s.drop_last(), x, at);
        assert(s.insert(at, x) =~= s.drop_last().insert(at, x).push(s.last()));
    }
}

fn insert_sorted(v: &mut Vec<u64>, x: u64)
    ensures
        final(v)@ == put_in(old(v)@, x),
{
    let mut at: usize = v.len();
    while at > 0 && v[at - 1] > x
        invariant
            at <= v.len(),
            v@ == old(v)@,
            forall|i: int| at <= i < v.len() ==> v[i] > x,
        decreases at,
    {
        at -= 1;
    }
    proof {
        lemma_put_in(v@, x, at as int);
    }
    v.insert(at, x);
}

fn add_new(v: &mut Vec<u64>, x: u64)
    ensures
        final(v)@ == add_hash(old(v)@, x),
{
    let mut i: usize = 0;
    while i < v.len()
        invariant
            i <= v.len(),
            v@ == old(v)@,
            forall|k: int| 0 <= k < i ==> v[k] != x,
        decreases v.len() - i,
    {
        if v[i] == x {
            return ;
        }
        i += 1;
    }
    insert_sorted(v, x);
}

fn first_layer(atoms: &Vec<Atom>, bonds: &Vec<Bond>, Ghost(g): Ghost<Graph>) -> (h: Vec<u64>)
    requires
        g.atoms == atoms@,
        g.bonds == bonds@,
    ensures
        h@ == layer(g, 0),
{
    let n = atoms.len();
    let d = degrees(n, bonds, Ghost(g));
    let mut h: Vec<u64> = Vec::new();
    let mut a: usize = 0;
    while a < n
        invariant
            a <= n,
            n == atoms.len(),
            g.atoms == atoms@,
            d.len() == n,
            forall|x: int| 0 <= x < n ==> #[trigger] d[x] == g.degree(x),
            h.len() == a,
            forall|x: int| 0 <= x < a ==> #[trigger] h[x] == atom_code(g, x),
        decreases n - a,
    {
        let x = atoms[a];
        let c = mixed(
            mixed(
                mixed(mixed(SEED, x.element as u64), (x.charge as i16 + 128) as u64),
                if x.aromatic {
                    1
                } else {
                    0
                },
            ),
            d[a] as u64,
        );
        h.push(c);
        a += 1;
    }
    assert(h@ =~= layer(g, 0));
    h
}

fn next_layer(n: usize, bonds: &Vec<Bond>, h: &Vec<u64>, r: u64, Ghost(g): Ghost<Graph>) -> (out: Vec<u64>)
    requires
        g.atoms.len() == n,
        g.bonds == bonds@,
        g.wf(),
        h.len() == n,
    ensures
        out@ == grow(g, h@, r),
{
    let mut out: Vec<u64> = Vec::new();
    let mut a: usize = 0;
    while a < n
        invariant
            a <= n,
            g.atoms.len() == n,
            g.bonds == bonds@,
            g.wf(),
            h.len() == n,
            out.len() == a,
            forall|x: int|
                0 <= x < a ==> #[trigger] out[x] == mix_all(
                    mix(h[x], r),
                    pair_codes(g, h@, x, bonds.len() as int),
                ),
        decreases n - a,
    {
        let mut codes: Vec<u64> = Vec::new();
        let mut j: usize = 0;
        while j < bonds.len()
            invariant
                j <= bonds.len(),
                g.atoms.len() == n,
                g.bonds == bonds@,
                g.wf(),
                h.len() == n,
                codes@ == pair_codes(g, h@, a as int, j as int),
            decreases bonds.len() - j,
        {
            let b = bonds[j];
            assert(g.bonds[j as int].begin < n && g.bonds[j as int].end < n);
            if b.begin == a {
                insert_sorted(&mut codes, mixed(code_of(b.order), h[b.end]));
            } else if b.end == a {
                insert_sorted(&mut codes, mixed(code_of(b.order), h[b.begin]));
            }
            j += 1;
        }
        let mut acc = mixed(h[a], r);
        let mut k: usize = 0;
        while k < codes.len()
            invariant
                k <= codes.len(),
                acc == mix_all(mix(h[a as int], r), codes@.take(k as int)),
            decreases codes.len() - k,
        {
            proof {
                assert(codes@.take(k + 1).drop_last() =~= codes@.take(k as int));
            }
            acc = mixed(acc, codes[k]);
            k += 1;
        }
        assert(codes@.take(codes.len() as int) =~= codes@);
        out.push(acc);
        a += 1;
    }
    assert(out@ =~= grow(g, h@, r));
    out
}

fn collect(list: &mut Vec<u64>, h: &Vec<u64>)
    ensures
        final(list)@ == add_layer(old(list)@, h@, h.len() as int),
{
    let mut k: usize = 0;
    while k < h.len()
        invariant
            k <= h.len(),
            list@ == add_layer(old(list)@, h@, k as int),
        decreases h.len() - k,
    {
        add_new(list, h[k]);
        k += 1;
    }
}

fn fold(hashes: &Vec<u64>, size: usize) -> (bits: Vec<bool>)
    ensures
        bits@ == fold_bits(hashes@, size),
{
    let mut bits: Vec<bool> = Vec::new();
    let mut i: usize = 0;
    while i < size
        invariant
            i <= size,
            bits.len() == i,
            forall|x: int| 0 <= x < i ==> !bits[x],
        decreases size - i,
    {
        bits.push(false);
        i += 1;
    }
    if size > 0 {
        let mut k: usize = 0;
        while k < hashes.len()
            invariant
                k <= hashes.len(),
                size > 0,
                bits.len() == size,
                forall|x: int| 0 <= x < size ==> #[trigger] bits[x] == bit_set(hashes@, size as int, x, k as int),
            decreases hashes.len() - k,
        {
            let at = (hashes[k] % (size as u64)) as usize;
            let ghost before = bits@;
            bits.set(at, true);
            proof {
                assert forall|x: int| 0 <= x < size implies #[trigger] bits[x] == bit_set(
                    hashes@,
                    size as int,
                    x,
                    k + 1,
                ) by {
                    if x == at {
                        assert(hashes@[k as int] % (size as u64) == x);
                    } else if before[x] {
                        let j = choose|j: int| 0 <= j < k && #[trigger] hashes@[j] % (size as u64) == x;
                        assert(hashes@[j] % (size as u64) == x);
                    }
                }
            }
            k += 1;
        }
    }
    assert(bits@ =~= fold_bits(hashes@, size));
    bits
}

/// The fingerprint of a graph: see [`fingerprint_of`].
pub(crate) fn fingerprint_graph(atoms: &Vec<Atom>, bonds: &Vec<Bond>, radius: u32, size: usize) -> (f: Fingerprint)
    requires
        (Graph { atoms: atoms@, bonds: bonds@ }).wf(),
    ensures
        f@ == fingerprint_of(Graph { atoms: atoms@, bonds: bonds@ }, radius, size),
{
    let ghost g = Graph { atoms: atoms@, bonds: bonds@ };
    let n = atoms.len();
    let mut h = first_layer(atoms, bonds, Ghost(g));
    let mut hashes: Vec<u64> = Vec::new();
    collect(&mut hashes, &h);
    let mut r: u32 = 0;
    while r < radius
        invariant
            r <= radius,
            n == atoms.len(),
            g == (Graph { atoms: atoms@, bonds: bonds@ }),
            g.wf(),
            h@ == layer(g, r as nat),
            hashes@ == hashes_upto(g, r as nat),
        decreases radius - r,
    {
        r += 1;
        h = next_layer(n, bonds, &h, r as u64, Ghost(g));
        collect(&mut hashes, &h);
    }
    let bits = fold(&hashes, size);
    Fingerprint { bits, hashes }
}

} // verus!
