//! Key/value caches for storages (routes, query stores, key/value stores),
//! and the random choice of cached values.
use vstd::prelude::*;
use std::collections::HashMap;
use std::hash::Hash;
use std::marker::PhantomData;
use vstd::std_specs::hash::{obeys_key_model, builds_valid_hashers, spec_hash_map_iter};
use std::collections::hash_map::RandomState;
use vstd::std_specs::iter::IteratorSpec;
use bit_vec::BitVec;

pub mod rand_cache;

verus! {

/// The accumulators `acc` and entries `kvs` are the steps of folding `f` over
/// `walk` from `init` to `r`: each accumulator is obtained from the previous
/// one and the next entry by a call of `f`.
pub open spec fn fold_steps<'a, K: 'a, V: 'a, B, F: Fn(B, (&'a K, &'a V)) -> B>(
    f: F,
    init: B,
    walk: Seq<(K, V)>,
    r: B,
    acc: Seq<B>,
    kvs: Seq<(&'a K, &'a V)>,
) -> bool {
    &&& acc.len() == walk.len() + 1
    &&& kvs.len() == walk.len()
    &&& acc[0] == init
    &&& acc[walk.len() as int] == r
    &&& forall|i: int|
        0 <= i < walk.len() ==> {
            &&& *kvs[i].0 == walk[i].0
            &&& *kvs[i].1 == walk[i].1
            &&& f.ensures((acc[i], kvs[i]), #[trigger] acc[i + 1])
        }
}

/// `r` is what folding `f` over `walk` from `init` can give.
pub open spec fn fold_chain<'a, K: 'a, V: 'a, B, F: Fn(B, (&'a K, &'a V)) -> B>(f: F, init: B, walk: Seq<(K, V)>, r: B) -> bool {
    exists|acc: Seq<B>, kvs: Seq<(&'a K, &'a V)>| fold_steps(f, init, walk, r, acc, kvs)
}

/// Same as `fold_chain` for a closure that may change its own state.
pub open spec fn fold_mut_chain<'a, K: 'a, V: 'a, B, F: FnMut(B, (&'a K, &'a V)) -> B>(f: F, init: B, walk: Seq<(K, V)>, r: B) -> bool {
    exists|acc: Seq<B>, kvs: Seq<(&'a K, &'a V)>|
        {
            &&& acc.len() == walk.len() + 1
            &&& kvs.len() == walk.len()
            &&& acc[0] == init
            &&& acc[walk.len() as int] == r
            &&& forall|i: int|
                0 <= i < walk.len() ==> {
                    &&& *kvs[i].0 == walk[i].0
                    &&& *kvs[i].1 == walk[i].1
                    &&& f.ensures((acc[i], kvs[i]), #[trigger] acc[i + 1])
                }
        }
}

/// Folding over no entry gives the initial value.
pub proof fn lemma_fold_chain_empty<'a, K: 'a, V: 'a, B, F: Fn(B, (&'a K, &'a V)) -> B>(f: F, init: B)
    ensures
        fold_chain(f, init, Seq::<(K, V)>::empty(), init),
{
    let acc = seq![init];
    let kvs = Seq::<(&'a K, &'a V)>::empty();
    assert(fold_steps(f, init, Seq::<(K, V)>::empty(), init, acc, kvs));
}

/// Number of `true` in `s`.
pub open spec fn count_true(s: Seq<bool>) -> nat
    decreases s.len(),
{
    if s.len() == 0 {
        0
    } else {
        count_true(s.drop_last()) + if s.last() {
            1nat
        } else {
            0nat
        }
    }
}

/// `r` is how many values of `walk` pass `f`, by what calls of `f` can give.
pub open spec fn count_where<K, V, F: Fn(&V) -> bool>(f: F, walk: Seq<(K, V)>, r: usize) -> bool {
    exists|passes: Seq<bool>|
        {
            &&& passes.len() == walk.len()
            &&& r == #[trigger] count_true(passes)
            &&& forall|i: int| 0 <= i < walk.len() ==> f.ensures((&walk[i].1,), #[trigger] passes[i])
        }
}

/// Folding (closure with state) over no entry gives the initial value.
pub proof fn lemma_fold_mut_chain_empty<'a, K: 'a, V: 'a, B, F: FnMut(B, (&'a K, &'a V)) -> B>(f: F, init: B)
    ensures
        fold_mut_chain(f, init, Seq::<(K, V)>::empty(), init),
{
    let acc = seq![init];
    let kvs = Seq::<(&'a K, &'a V)>::empty();
    assert(acc.len() == 1 && kvs.len() == 0 && acc[0] == init);
}

/// No entry passes.
pub proof fn lemma_count_where_empty<K, V, F: Fn(&V) -> bool>(f: F)
    ensures
        count_where(f, Seq::<(K, V)>::empty(), 0),
{
    let passes = Seq::<bool>::empty();
    assert(passes.len() == 0 && count_true(passes) == 0);
}

/// Entry `j` of `walk` is the first that fails: `f` succeeds on each entry
/// before it, and a call of `f` on it gives `r`.
pub open spec fn first_failure<'a, K: 'a, V: 'a, E, F: FnMut((&'a K, &'a V)) -> Result<(), E>>(
    f: F,
    walk: Seq<(K, V)>,
    j: int,
    r: Result<(), E>,
) -> bool {
    &&& 0 <= j < walk.len()
    &&& forall|i: int| 0 <= i < j ==> entry_succeeds(f, #[trigger] walk[i])
    &&& exists|kv: (&'a K, &'a V)| #![trigger f.ensures((kv,), r)]
        *kv.0 == walk[j].0 && *kv.1 == walk[j].1 && f.ensures((kv,), r)
}

/// The entries of a hash map in the order its iterator gives them.
pub open spec fn hash_map_walk<K, V>(m: &HashMap<K, V>) -> Seq<(K, V)> {
    vstd::std_specs::hash::into_iter(spec_hash_map_iter(m))
}

// ---------------------------------------------------------------------------
// random draw of cached values

/// Bit vectors of bit-vec.
#[verifier::external_type_specification]
#[verifier::external_body]
#[verifier::reject_recursive_types(B)]
pub struct ExBitVec<B>(BitVec<B>);

/// The bits a bit vector holds.
pub uninterp spec fn bit_vec_bits(v: BitVec) -> Seq<bool>;

/// The bits of `bytes`, eight per byte, the most significant bit of each
/// byte first.
pub open spec fn bytes_bits(bytes: Seq<u8>) -> Seq<bool> {
    Seq::new(bytes.len() * 8, |i: int| (bytes[i / 8] >> ((7 - i % 8) as u8)) & 1u8 == 1u8)
}

/// A bit vector of the bits of `bytes`.
/// Calls bit-vec's `BitVec::from_bytes`; claims, as its documentation says,
/// that each byte becomes eight bits, the most significant first.
#[verifier::external_body]
fn bits_from_bytes(bytes: &[u8]) -> (r: BitVec)
    requires
        bytes@.len() * 8 <= usize::MAX,
    ensures
        bit_vec_bits(r) == bytes_bits(bytes@),
{
    BitVec::<u32>::from_bytes(bytes)
}

/// Sets bit `i` to `x`.
/// Calls bit-vec's `BitVec::set`; claims that bit `i` becomes `x` and the
/// others stay (it panics past the end, which `requires` leaves out).
#[verifier::external_body]
fn bits_set(v: &mut BitVec, i: usize, x: bool)
    requires
        i < bit_vec_bits(*old(v)).len(),
    ensures
        bit_vec_bits(*final(v)) == bit_vec_bits(*old(v)).update(i as int, x),
{
    v.set(i, x)
}

/// Bit `i`.
/// Calls bit-vec's indexing of `BitVec`; claims that it gives bit `i` (it
/// panics past the end, which `requires` leaves out).
#[verifier::external_body]
fn bits_get(v: &BitVec, i: usize) -> (r: bool)
    requires
        i < bit_vec_bits(*v).len(),
    ensures
        r == bit_vec_bits(*v)[i as int],
{
    v[i]
}

/// Number of bits.
/// Calls bit-vec's `BitVec::len`; claims that it gives the number of bits.
#[verifier::external_body]
fn bits_len(v: &BitVec) -> (r: usize)
    ensures
        r == bit_vec_bits(*v).len(),
{
    v.len()
}

/// Fills `buf` with random bytes.
/// Calls rand's `RngCore::fill_bytes` on `thread_rng()`; claims only that the
/// length of `buf` stays (the bytes are random).
#[verifier::external_body]
fn fill_random(buf: &mut Vec<u8>)
    ensures
        final(buf)@.len() == old(buf)@.len(),
{
    rand::RngCore::fill_bytes(&mut rand::thread_rng(), buf.as_mut_slice())
}

/// The bits at positions `xess` and after (the others cleared).
pub open spec fn masked_bits(bits: Seq<bool>, xess: int) -> Seq<bool> {
    Seq::new(bits.len(), |i: int| xess <= i && bits[i])
}

/// How many set bits the first `n` candidates met, and which of them were
/// chosen: candidate `c` reads bit `xess + c`; the `t`-th candidate that meets
/// a set bit (counting from 0) is chosen when fewer than `nb` are chosen and
/// `t` is a multiple of `ratio`.
pub open spec fn pick_state(bits: Seq<bool>, xess: int, nb: int, ratio: int, n: nat) -> (int, Seq<int>)
    decreases n,
{
    if n == 0 {
        (0, Seq::empty())
    } else {
        let prev = pick_state(bits, xess, nb, ratio, (n - 1) as nat);
        if bits[xess + n - 1] {
            (prev.0 + 1, if prev.1.len() < nb && prev.0 % ratio == 0 {
                prev.1.push(n - 1)
            } else {
                prev.1
            })
        } else {
            prev
        }
    }
}

/// The candidates a draw of `nb` among `p` chooses with the random `bits`,
/// the first `xess` bits being ignored; none when fewer than `nb` bits are set.
pub open spec fn draw_positions(bits: Seq<bool>, xess: int, nb: int, p: nat) -> Option<Seq<int>> {
    let m = masked_bits(bits, xess);
    let ratio = count_true(m) as int / nb;
    if ratio == 0 {
        None
    } else {
        Some(pick_state(m, xess, nb, ratio, p).1)
    }
}

/// The values a draw chooses among `vals`.
pub open spec fn draw_values<V>(vals: Seq<V>, bits: Seq<bool>, xess: int, nb: int) -> Option<Seq<V>> {
    match draw_positions(bits, xess, nb, vals.len()) {
        Some(idx) => Some(idx.map_values(|j: int| vals[j])),
        None => None,
    }
}

/// The bits of `buf`, the first `xess` cleared.
fn masked_filter(buf: &[u8], xess: usize) -> (r: BitVec)
    requires
        buf@.len() * 8 <= usize::MAX,
        xess <= buf@.len() * 8,
    ensures
        bit_vec_bits(r) == masked_bits(bytes_bits(buf@), xess as int),
{
    let mut filter = bits_from_bytes(buf);
    let ghost bits0 = bit_vec_bits(filter);
    let mut i: usize = 0;
    while i < xess
        invariant
            i <= xess,
            xess <= bits0.len(),
            bits0 == bytes_bits(buf@),
            bit_vec_bits(filter) == Seq::new(bits0.len(), |j: int| if j < i { false } else { bits0[j] }),
        decreases xess - i,
    {
        bits_set(&mut filter, i, false);
        i = i + 1;
        proof {
            assert(bit_vec_bits(filter) =~= Seq::new(bits0.len(), |j: int| if j < i { false } else { bits0[j] }));
        }
    }
    assert(bit_vec_bits(filter) =~= masked_bits(bits0, xess as int));
    filter
}

/// Number of set bits.
fn count_set(filter: &BitVec) -> (r: usize)
    ensures
        r == count_true(bit_vec_bits(*filter)),
{
    let ghost m = bit_vec_bits(*filter);
    let n = bits_len(filter);
    let mut fsize: usize = 0;
    let mut j: usize = 0;
    while j < n
        invariant
            j <= n,
            n == m.len(),
            m == bit_vec_bits(*filter),
            fsize == count_true(m.take(j as int)),
            fsize <= j,
        decreases n - j,
    {
        proof {
            assert(m.take(j + 1).drop_last() =~= m.take(j as int));
        }
        if bits_get(filter, j) {
            fsize = fsize + 1;
        }
        j = j + 1;
    }
    assert(m.take(n as int) =~= m);
    fsize
}

/// The values that `pick_state` chooses.
fn pick_values<'a, V>(filter: &BitVec, vals: &Vec<&'a V>, xess: usize, nb: usize, ratio: usize) -> (r: Vec<&'a V>)
    requires
        ratio > 0,
        xess + vals@.len() <= bit_vec_bits(*filter).len(),
    ensures
        r@ == pick_state(bit_vec_bits(*filter), xess as int, nb as int, ratio as int, vals@.len()).1.map_values(
            |jj: int| vals@[jj],
        ),
{
    let ghost m = bit_vec_bits(*filter);
    let _ = bits_len(filter);
    let mut pos: usize = xess;
    let mut tot: usize = 0;
    let mut r: Vec<&'a V> = Vec::new();
    let mut k: usize = 0;
    while k < vals.len()
        invariant
            k <= vals@.len(),
            pos == xess + k,
            xess + vals@.len() <= m.len(),
            m.len() <= usize::MAX,
            m == bit_vec_bits(*filter),
            ratio > 0,
            tot as int == pick_state(m, xess as int, nb as int, ratio as int, k as nat).0,
            tot <= k,
            r@ == pick_state(m, xess as int, nb as int, ratio as int, k as nat).1.map_values(|jj: int| vals@[jj]),
        decreases vals@.len() - k,
    {
        let ghost prev = pick_state(m, xess as int, nb as int, ratio as int, k as nat);
        if bits_get(filter, pos) {
            if r.len() < nb && tot % ratio == 0 {
                r.push(vals[k]);
                proof {
                    assert(prev.1.push(k as int).map_values(|jj: int| vals@[jj]) =~= prev.1.map_values(
                        |jj: int| vals@[jj],
                    ).push(vals@[k as int]));
                }
            }
            tot = tot + 1;
        }
        pos = pos + 1;
        k = k + 1;
    }
    r
}

/// One random draw of `nb` of the values `vals` with the random bytes `buf`:
/// value `c` reads bit `xess + c` of `buf` (most significant bit of each byte
/// first); the values on set bits are taken every `ratio`-th, `ratio` being
/// the number of set bits (past the first `xess`) divided by `nb`, until `nb`
/// are taken; `None` when that ratio is 0.
pub fn inner_cache_bv_rand<'a, V>(vals: &Vec<&'a V>, buf: &[u8], xess: usize, nb: usize) -> (r: Option<Vec<&'a V>>)
    requires
        nb > 0,
        buf@.len() * 8 <= usize::MAX,
        xess + vals@.len() <= buf@.len() * 8,
    ensures
        match draw_positions(bytes_bits(buf@), xess as int, nb as int, vals@.len()) {
            None => r is None,
            Some(idx) => r matches Some(rv) && rv@ == idx.map_values(|j: int| vals@[j]),
        },
{
    let filter = masked_filter(buf, xess);
    let fsize = count_set(&filter);
    let ratio = fsize / nb;
    if ratio == 0 {
        return None;
    }
    Some(pick_values(&filter, vals, xess, nb, ratio))
}

/// Strictly increasing positions, all below `p`.
pub open spec fn positions_within(idx: Seq<int>, p: int) -> bool {
    &&& forall|j: int| 0 <= j < idx.len() ==> 0 <= #[trigger] idx[j] < p
    &&& forall|a: int, b: int| 0 <= a < b < idx.len() ==> #[trigger] idx[a] < #[trigger] idx[b]
}

/// Set bits of two sequences put end to end.
proof fn lemma_count_true_append(a: Seq<bool>, b: Seq<bool>)
    ensures
        count_true(a + b) == count_true(a) + count_true(b),
    decreases b.len(),
{
    if b.len() == 0 {
        assert(a + b =~= a);
    } else {
        assert((a + b).drop_last() =~= a + b.drop_last());
        lemma_count_true_append(a, b.drop_last());
    }
}

/// No set bit in a sequence of cleared bits.
proof fn lemma_count_true_none(a: Seq<bool>)
    requires
        forall|i: int| 0 <= i < a.len() ==> !a[i],
    ensures
        count_true(a) == 0,
    decreases a.len(),
{
    if a.len() > 0 {
        lemma_count_true_none(a.drop_last());
    }
}

/// A multiple of `r` in `(l * r - r, l * r]` is `l * r`.
proof fn lemma_multiple_in_step(t: int, l: int, r: int)
    requires
        r > 0,
        t >= 0,
        l >= 0,
        l * r >= t,
        t + r > l * r,
        t % r == 0,
    ensures
        t == l * r,
{
    vstd::arithmetic::div_mod::lemma_fundamental_div_mod(t, r);
    let q = t / r;
    assert(t == r * q);
    assert(q <= l) by (nonlinear_arith)
        requires
            t == r * q,
            l * r >= t,
            r > 0,
    ;
    assert(q >= l) by (nonlinear_arith)
        requires
            t == r * q,
            t + r > l * r,
            r > 0,
    ;
    assert(t == l * r) by (nonlinear_arith)
        requires
            t == r * q,
            q == l,
    ;
}

/// What the first `n` candidates of a draw lead to: the set bits they met,
/// at most `nb` chosen, as many as the multiples of `ratio` below the number
/// of set bits met while fewer than `nb`, at increasing positions.
proof fn lemma_pick_state(m: Seq<bool>, xess: int, nb: int, ratio: int, n: nat)
    requires
        ratio > 0,
        nb >= 0,
        xess >= 0,
        xess + n <= m.len(),
    ensures
        ({
            let (tot, idx) = pick_state(m, xess, nb, ratio, n);
            &&& tot == count_true(m.subrange(xess, xess + n))
            &&& idx.len() <= nb
            &&& idx.len() < nb ==> idx.len() * ratio >= tot && tot + ratio > idx.len() * ratio
            &&& positions_within(idx, n as int)
        }),
    decreases n,
{
    if n == 0 {
        assert(m.subrange(xess, xess) =~= Seq::<bool>::empty());
    } else {
        lemma_pick_state(m, xess, nb, ratio, (n - 1) as nat);
        let (t, idx) = pick_state(m, xess, nb, ratio, (n - 1) as nat);
        let l = idx.len() as int;
        assert(m.subrange(xess, xess + n).drop_last() =~= m.subrange(xess, xess + n - 1));
        if m[xess + n - 1] {
            if l < nb && t % ratio == 0 {
                lemma_multiple_in_step(t, l, ratio);
                assert((l + 1) * ratio == l * ratio + ratio) by (nonlinear_arith);
                let idx2 = idx.push(n - 1);
                assert(positions_within(idx2, n as int)) by {
                    assert forall|a: int, b: int| 0 <= a < b < idx2.len() implies #[trigger] idx2[a] < #[trigger] idx2[b] by {
                        if b < idx.len() {
                            assert(idx[a] < idx[b]);
                        } else {
                            assert(0 <= idx[a] < n - 1);
                        }
                    }
                }
            } else if l < nb {
                if t == l * ratio {
                    assert((l * ratio) % ratio == 0) by (nonlinear_arith)
                        requires
                            ratio > 0,
                    ;
                }
            }
        }
    }
}

/// A draw among `p` candidates with `xess + p` random bits gives values
/// exactly when at least `nb` of the bits past the first `xess` are set, and
/// then it chooses exactly `nb` distinct candidates, in their order.
pub proof fn lemma_draw_chooses_nb(bits: Seq<bool>, xess: int, nb: int, p: nat)
    requires
        nb > 0,
        xess >= 0,
        bits.len() == xess + p,
    ensures
        draw_positions(bits, xess, nb, p) is Some <==> count_true(masked_bits(bits, xess)) >= nb,
        draw_positions(bits, xess, nb, p) matches Some(idx) ==> idx.len() == nb && positions_within(idx, p as int),
{
    let m = masked_bits(bits, xess);
    let fsize = count_true(m) as int;
    assert(m =~= m.subrange(0, xess) + m.subrange(xess, xess + p));
    lemma_count_true_append(m.subrange(0, xess), m.subrange(xess, xess + p));
    lemma_count_true_none(m.subrange(0, xess));
    let ratio = fsize / nb;
    if fsize >= nb {
        assert(ratio >= 1 && ratio * nb <= fsize) by (nonlinear_arith)
            requires
                fsize >= nb,
                nb > 0,
                ratio == fsize / nb,
        ;
        lemma_pick_state(m, xess, nb, ratio, p);
        let idx = pick_state(m, xess, nb, ratio, p).1;
        if idx.len() < nb {
            assert(idx.len() >= nb) by (nonlinear_arith)
                requires
                    idx.len() * ratio >= fsize,
                    ratio * nb <= fsize,
                    ratio > 0,
            ;
        }
    } else {
        assert(ratio == 0) by (nonlinear_arith)
            requires
                0 <= fsize < nb,
                ratio == fsize / nb,
        ;
    }
}

/// The values of the entries of `walk` whose mark in `passes` is set, in
/// their order.
pub open spec fn filtered<K, V>(walk: Seq<(K, V)>, passes: Seq<bool>) -> Seq<V>
    decreases walk.len(),
{
    if walk.len() == 0 {
        Seq::empty()
    } else {
        let prev = filtered(walk.drop_last(), passes.drop_last());
        if passes.last() {
            prev.push(walk.last().1)
        } else {
            prev
        }
    }
}

/// `pv` are the values of `walk` that the filter `f` lets through, in their
/// order (all of them without a filter).
pub open spec fn filter_gives<K, V, F: Fn(&V) -> bool>(f: Option<&F>, walk: Seq<(K, V)>, pv: Seq<V>) -> bool {
    exists|passes: Seq<bool>|
        {
            &&& passes.len() == walk.len()
            &&& forall|i: int|
                #![trigger passes[i]]
                0 <= i < walk.len() ==> match f {
                    Some(g) => g.ensures((&walk[i].1,), passes[i]),
                    None => passes[i],
                }
            &&& pv == filtered(walk, passes)
        }
}

/// How many values are drawn among `l` when `queried` are asked for: at most
/// two thirds of `l`.
pub open spec fn wanted_count(queried: int, l: int) -> int {
    let randrat = l * 2 / 3;
    if queried > randrat {
        randrat
    } else {
        queried
    }
}

/// Leading bits left out so that `l` bits end a whole number of bytes.
pub open spec fn excess_bits(l: int) -> int {
    if l % 8 == 0 {
        0
    } else {
        8 - l % 8
    }
}

/// Number of bytes for `l` bits.
pub open spec fn bytes_for(l: int) -> int {
    if l % 8 == 0 {
        l / 8
    } else {
        l / 8 + 1
    }
}

/// `r` is what asking for `queried` random values among `pv` can give:
/// nothing when the wanted count is 0; otherwise exactly the wanted count of
/// values, those of a draw with some random bytes.
pub open spec fn random_choice<V>(pv: Seq<V>, queried: int, r: Seq<V>) -> bool {
    let nb = wanted_count(queried, pv.len() as int);
    if nb == 0 {
        r.len() == 0
    } else {
        &&& r.len() == nb
        &&& exists|bytes: Seq<u8>|
            bytes.len() == bytes_for(pv.len() as int) && draw_values(
                pv,
                bytes_bits(bytes),
                excess_bits(pv.len() as int),
                nb,
            ) == Some(r)
    }
}

/// A random choice gives exactly the wanted count of values (at most two
/// thirds of them, none when none is wanted), taken from distinct positions of
/// `pv`, in their order.
pub proof fn lemma_random_choice_picks<V>(pv: Seq<V>, queried: int, r: Seq<V>)
    requires
        queried >= 0,
        random_choice(pv, queried, r),
    ensures
        r.len() == wanted_count(queried, pv.len() as int),
        exists|idx: Seq<int>|
            #![trigger positions_within(idx, pv.len() as int)]
            positions_within(idx, pv.len() as int) && idx.len() == r.len() && forall|j: int|
                0 <= j < r.len() ==> r[j] == pv[#[trigger] idx[j]],
{
    let l = pv.len() as int;
    let nb = wanted_count(queried, l);
    if nb == 0 {
        assert(positions_within(Seq::<int>::empty(), l));
    } else {
        let bytes = choose|bytes: Seq<u8>|
            bytes.len() == bytes_for(l) && draw_values(pv, bytes_bits(bytes), excess_bits(l), nb) == Some(r);
        let bits = bytes_bits(bytes);
        assert(bits.len() == excess_bits(l) + l) by {
            vstd::arithmetic::div_mod::lemma_fundamental_div_mod(l, 8);
        }
        lemma_draw_chooses_nb(bits, excess_bits(l), nb, pv.len());
        let idx = draw_positions(bits, excess_bits(l), nb, pv.len())->Some_0;
        assert(r == idx.map_values(|j: int| pv[j]));
        assert(positions_within(idx, l));
    }
}

/// The wanted count of a random choice is the queried count clamped to two
/// thirds of the values, rounded down: it is at most the queried count, at
/// most two thirds of the values, and the queried count when that fits;
/// otherwise one more would exceed two thirds.
pub proof fn lemma_wanted_count(queried: int, l: int)
    requires
        queried >= 0,
        l >= 0,
    ensures
        0 <= wanted_count(queried, l) <= queried,
        3 * wanted_count(queried, l) <= 2 * l,
        3 * queried <= 2 * l ==> wanted_count(queried, l) == queried,
        wanted_count(queried, l) < queried ==> 3 * (wanted_count(queried, l) + 1) > 2 * l,
{
}

/// The random bytes for `l` values hold `l` bits after fewer than eight
/// leading bits left out, which make whole bytes.
pub proof fn lemma_bytes_for(l: int)
    requires
        l >= 0,
    ensures
        bytes_for(l) * 8 == excess_bits(l) + l,
        0 <= excess_bits(l) < 8,
{
}

/// `n` bytes with every bit set.
pub(crate) fn all_set_bytes(n: usize) -> (v: Vec<u8>)
    ensures
        v@.len() == n,
        forall|i: int| 0 <= i < n ==> v@[i] == 255u8,
{
    let mut v: Vec<u8> = Vec::new();
    let mut i: usize = 0;
    while i < n
        invariant
            i <= n,
            v@.len() == i,
            forall|j: int| 0 <= j < i ==> v@[j] == 255u8,
        decreases n - i,
    {
        v.push(255u8);
        i = i + 1;
    }
    v
}

/// Bits set from position `xess` on: as many as the positions past it.
proof fn lemma_count_true_from(n: nat, xess: int)
    requires
        0 <= xess <= n,
    ensures
        count_true(Seq::new(n, |i: int| xess <= i)) == n - xess,
    decreases n,
{
    let s = Seq::new(n, |i: int| xess <= i);
    if n > xess {
        assert(s.drop_last() =~= Seq::new((n - 1) as nat, |i: int| xess <= i));
        lemma_count_true_from((n - 1) as nat, xess);
    } else {
        lemma_count_true_none(s);
    }
}

/// A draw with bytes whose bits are all set always gives values: every
/// candidate meets a set bit, and fewer are wanted than there are candidates.
pub proof fn lemma_all_set_draw(bytes: Seq<u8>, xess: int, nb: int, p: nat)
    requires
        forall|i: int| 0 <= i < bytes.len() ==> bytes[i] == 255u8,
        0 <= xess,
        bytes.len() * 8 == xess + p,
        0 < nb <= p,
    ensures
        draw_positions(bytes_bits(bytes), xess, nb, p) matches Some(idx) && idx.len() == nb && positions_within(
            idx,
            p as int,
        ),
{
    let bits = bytes_bits(bytes);
    assert forall|i: int| 0 <= i < bits.len() implies bits[i] by {
        let k = (7 - i % 8) as u8;
        assert(bytes[i / 8] == 255u8);
        assert(k < 8);
        assert((255u8 >> k) & 1u8 == 1u8) by (bit_vector)
            requires
                k < 8,
        ;
    }
    assert(masked_bits(bits, xess) =~= Seq::new(bits.len(), |i: int| xess <= i));
    lemma_count_true_from(bits.len(), xess);
    lemma_draw_chooses_nb(bits, xess, nb, p);
}

/// `acc` with the value of `kv` pushed.
fn push_value<'a, K, V>(acc: Vec<&'a V>, kv: (&'a K, &'a V)) -> (r: Vec<&'a V>)
    ensures
        r@ == acc@.push(kv.1),
{
    let mut acc = acc;
    acc.push(kv.1);
    acc
}

/// The first `n` steps of a fold that pushes each value collect the first `n`
/// values of the walk.
proof fn lemma_collect_prefix<'a, K: 'a, V: 'a, F: Fn(Vec<&'a V>, (&'a K, &'a V)) -> Vec<&'a V>>(
    f: F,
    init: Vec<&'a V>,
    walk: Seq<(K, V)>,
    r: Vec<&'a V>,
    acc: Seq<Vec<&'a V>>,
    kvs: Seq<(&'a K, &'a V)>,
    n: nat,
)
    requires
        forall|a: Vec<&'a V>, kv: (&'a K, &'a V), a2: Vec<&'a V>| f.ensures((a, kv), a2) ==> a2@ == a@.push(kv.1),
        fold_steps(f, init, walk, r, acc, kvs),
        init@.len() == 0,
        n <= walk.len(),
    ensures
        acc[n as int]@.len() == n,
        forall|j: int| 0 <= j < n ==> *acc[n as int]@[j] == walk[j].1,
    decreases n,
{
    if n > 0 {
        lemma_collect_prefix(f, init, walk, r, acc, kvs, (n - 1) as nat);
        let i = n - 1;
        assert(f.ensures((acc[i], kvs[i]), acc[i + 1]));
    }
}

/// A fold that pushes each value collects the values of the walk.
proof fn lemma_collect_values<'a, K: 'a, V: 'a, F: Fn(Vec<&'a V>, (&'a K, &'a V)) -> Vec<&'a V>>(
    f: F,
    init: Vec<&'a V>,
    walk: Seq<(K, V)>,
    r: Vec<&'a V>,
)
    requires
        forall|a: Vec<&'a V>, kv: (&'a K, &'a V), a2: Vec<&'a V>| f.ensures((a, kv), a2) ==> a2@ == a@.push(kv.1),
        fold_chain(f, init, walk, r),
        init@.len() == 0,
    ensures
        r@.len() == walk.len(),
        forall|j: int| 0 <= j < walk.len() ==> *r@[j] == walk[j].1,
{
    let (acc, kvs): (Seq<Vec<&'a V>>, Seq<(&'a K, &'a V)>) = choose|
        acc: Seq<Vec<&'a V>>,
        kvs: Seq<(&'a K, &'a V)>,
    | fold_steps(f, init, walk, r, acc, kvs);
    lemma_collect_prefix(f, init, walk, r, acc, kvs, walk.len());
}

/// `f` succeeds on `entry`.
pub open spec fn entry_succeeds<'a, K: 'a, V: 'a, E, F: FnMut((&'a K, &'a V)) -> Result<(), E>>(f: F, entry: (K, V)) -> bool {
    exists|kv: (&'a K, &'a V), r: Result<(), E>| *kv.0 == entry.0 && *kv.1 == entry.1 && r is Ok && #[trigger] f.ensures((kv,), r)
}

/// A cache that keeps values gives back, for a key, the value last added for
/// it; adding leaves the other keys as they were.
pub proof fn lemma_get_after_add<K, V, C: KVCache<K, V>>(before: C, after: C, k: K, v: V, other: K)
    requires
        C::keeps_values(),
        after.contents() == before.contents().insert(k, v),
    ensures
        after.contents().contains_key(k),
        after.contents()[k] == v,
        other != k ==> after.contents().contains_key(other) == before.contents().contains_key(other),
        other != k && before.contents().contains_key(other) ==> after.contents()[other] == before.contents()[other],
{
}

/// Removing a key that was just added gives back the value added, and leaves
/// the cache without the key and otherwise as before the addition.
pub proof fn lemma_remove_after_add<K, V, C: KVCache<K, V>>(before: C, added: C, after: C, k: K, v: V, r: Option<V>)
    requires
        C::keeps_values(),
        added.contents() == before.contents().insert(k, v),
        after.contents() == added.contents().remove(k),
        r == (if added.contents().contains_key(k) { Some(added.contents()[k]) } else { None::<V> }),
    ensures
        r == Some(v),
        after.contents() == before.contents().remove(k),
{
    assert(after.contents() =~= before.contents().remove(k));
}

/// Cache base trait for storages (transient or persistent).
pub trait KVCache<K, V>: Sized {
    /// Whether the cache behaves as its model says (for a hash map: its key
    /// type obeys the model of keys).
    spec fn well_behaved(&self) -> bool;

    /// What the cache holds.
    spec fn contents(&self) -> Map<K, V>;

    /// Whether the cache keeps what is added to it.
    spec fn keeps_values() -> bool;

    /// The entries, in the order folds visit them.
    spec fn walk(&self) -> Seq<(K, V)>;

    /// Adds a value (keys are cloned by callers).
    fn add_val_c(&mut self, k: K, v: V)
        ensures
            old(self).well_behaved() ==> final(self).well_behaved(),
            old(self).well_behaved() ==> final(self).contents() == if Self::keeps_values() {
                old(self).contents().insert(k, v)
            } else {
                old(self).contents()
            },
    ;

    /// The value of `k`.
    fn get_val_c(&self, k: &K) -> (r: Option<&V>)
        ensures
            self.well_behaved() ==> match r {
                Some(v) => self.contents().contains_key(*k) && *v == self.contents()[*k],
                None => !self.contents().contains_key(*k),
            },
    ;

    /// Whether `k` has a value.
    fn has_val_c(&self, k: &K) -> (r: bool)
        ensures
            self.well_behaved() ==> r == self.contents().contains_key(*k),
    {
        self.get_val_c(k).is_some()
    }

    /// Updates the value of `k` with `f` (in place or not, depending on the
    /// implementation); `Ok(true)` when there was a value to update, `Ok(false)`
    /// when there was none, the error of `f` when it failed.
    fn update_val_c<E, F: FnOnce(&mut V) -> Result<(), E>>(&mut self, k: &K, f: F) -> (r: Result<bool, E>)
        requires
            forall|v: &mut V| f.requires((v,)),
        ensures
            old(self).well_behaved() ==> final(self).well_behaved(),
            old(self).well_behaved() && !old(self).contents().contains_key(*k) ==> {
                &&& r matches Ok(b) && !b
                &&& final(self).contents() == old(self).contents()
            },
            old(self).well_behaved() && old(self).contents().contains_key(*k) ==> {
                &&& (r matches Ok(b) ==> b)
                &&& exists|v: V| final(self).contents() == old(self).contents().insert(*k, v)
            },
    ;

    /// Removes the value of `k`, and gives it back.
    fn remove_val_c(&mut self, k: &K) -> (r: Option<V>)
        ensures
            old(self).well_behaved() ==> final(self).well_behaved(),
            old(self).well_behaved() ==> final(self).contents() == old(self).contents().remove(*k),
            old(self).well_behaved() ==> match r {
                Some(v) => old(self).contents().contains_key(*k) && v == old(self).contents()[*k],
                None => !old(self).contents().contains_key(*k),
            },
    ;

    /// Folds `f` over all the entries (no closure state).
    fn strict_fold_c<'a, B, F: Fn(B, (&'a K, &'a V)) -> B>(&'a self, init: B, f: F) -> (r: B)
        where
            K: 'a,
            V: 'a,
        requires
            self.well_behaved(),
            forall|b: B, kv: (&'a K, &'a V)| f.requires((b, kv)),
        ensures
            fold_chain(f, init, self.walk(), r),
    ;

    /// Folds `f` over all the entries (closure with state).
    fn fold_c<'a, B, F: FnMut(B, (&'a K, &'a V)) -> B>(&'a self, init: B, f: F) -> (r: B)
        where
            K: 'a,
            V: 'a,
        requires
            self.well_behaved(),
            forall|b: B, kv: (&'a K, &'a V)| f.requires((b, kv)),
        ensures
            fold_mut_chain(f, init, self.walk(), r),
    ;

    /// Applies `f` to the entries in the order of the walk, stopping at the
    /// first error, which is returned: `f` is called on no entry after it.
    fn map_inplace_c<'a, E, F: FnMut((&'a K, &'a V)) -> Result<(), E>>(&'a self, f: F) -> (r: Result<(), E>)
        where
            K: 'a,
            V: 'a,
        requires
            self.well_behaved(),
            forall|kv: (&'a K, &'a V)| f.requires((kv,)),
        ensures
            r is Err ==> exists|j: int| first_failure(f, self.walk(), j, r),
            r is Ok ==> forall|i: int| 0 <= i < self.walk().len() ==> entry_succeeds(f, #[trigger] self.walk()[i]),
    ;

    /// Number of entries.
    fn len_c(&self) -> (r: usize)
        ensures
            self.well_behaved() ==> r == self.walk().len() && r == self.contents().len(),
    ;

    /// Number of entries whose value passes `f`.
    fn len_where_c<F: Fn(&V) -> bool>(&self, f: &F) -> (r: usize)
        requires
            self.well_behaved(),
            forall|v: &V| f.requires((v,)),
        ensures
            count_where(*f, self.walk(), r),
    ;

    /// A new empty cache.
    fn new() -> (r: Self)
        ensures
            r.well_behaved() ==> r.contents() == Map::<K, V>::empty(),
    ;

    /// Up to `queried_nb` random values among those that pass the filter `f`
    /// (all without a filter), in the order of the entries: at most two thirds
    /// of them, so that the choice stays random; random draws are taken until
    /// one gives values (after `u64::MAX` draws that gave none, bytes with
    /// every bit set are used, which always give values).
    fn next_random_values<'a, F: Fn(&V) -> bool>(&'a mut self, queried_nb: usize, f: Option<&F>) -> (r: Vec<&'a V>)
        where
            K: 'a,
            V: 'a,
        requires
            old(self).well_behaved(),
            old(self).walk().len() * 2 <= usize::MAX,
            f matches Some(g) ==> forall|v: &V| g.requires((v,)),
        ensures
            *final(self) == *old(self),
            exists|pv: Seq<V>|
                filter_gives(f, old(self).walk(), pv) && random_choice(
                    pv,
                    queried_nb as int,
                    r@.map_values(|x: &V| *x),
                ),
    {
        let empty: Vec<&'a V> = Vec::new();
        let ghost empty0 = empty;
        let all = self.strict_fold_c(empty, push_value::<K, V>);
        let ghost walk = self.walk();
        proof {
            lemma_collect_values(push_value::<K, V>, empty0, walk, all);
        }
        // the values that pass the filter
        let mut pv: Vec<&'a V> = Vec::new();
        let ghost mut passes: Seq<bool> = Seq::empty();
        let mut k: usize = 0;
        while k < all.len()
            invariant
                walk == old(self).walk(),
                all@.len() == walk.len(),
                forall|j: int| 0 <= j < walk.len() ==> *all@[j] == walk[j].1,
                k <= all@.len(),
                passes.len() == k,
                forall|i: int|
                    #![trigger passes[i]]
                    0 <= i < k ==> match f {
                        Some(g) => g.ensures((&walk[i].1,), passes[i]),
                        None => passes[i],
                    },
                pv@.map_values(|x: &V| *x) == filtered(walk.take(k as int), passes),
                pv@.len() <= k,
                f matches Some(g) ==> forall|v: &V| g.requires((v,)),
            decreases all@.len() - k,
        {
            let v = all[k];
            let keep = match f {
                Some(g) => g(v),
                None => true,
            };
            proof {
                assert(walk.take(k + 1).drop_last() =~= walk.take(k as int));
                assert(passes.push(keep).drop_last() =~= passes);
                assert(pv@.push(v).map_values(|x: &V| *x) =~= pv@.map_values(|x: &V| *x).push(*v));
            }
            if keep {
                pv.push(v);
            }
            proof {
                passes = passes.push(keep);
            }
            k = k + 1;
        }
        let ghost pvs = pv@.map_values(|x: &V| *x);
        proof {
            assert(walk.take(walk.len() as int) =~= walk);
            assert(filter_gives(f, walk, pvs));
        }
        let l = pv.len();
        let randrat = l * 2 / 3;
        let nb = if queried_nb > randrat {
            randrat
        } else {
            queried_nb
        };
        if nb == 0 {
            return Vec::new();
        }
        let xess: usize = if l % 8 == 0 {
            0
        } else {
            8 - l % 8
        };
        let blen: usize = if xess == 0 {
            l / 8
        } else {
            l / 8 + 1
        };
        let mut buf: Vec<u8> = vec![0u8; blen];
        let mut draws: u64 = 0;
        while draws < u64::MAX
            invariant
                buf@.len() == blen,
                blen == bytes_for(l as int),
                xess == excess_bits(l as int),
                xess + l == blen * 8,
                blen * 8 <= usize::MAX,
                nb > 0,
                nb == wanted_count(queried_nb as int, l as int),
                l == pv@.len(),
                pvs == pv@.map_values(|x: &V| *x),
                filter_gives(f, old(self).walk(), pvs),
            decreases u64::MAX - draws,
        {
            fill_random(&mut buf);
            match inner_cache_bv_rand(&pv, buf.as_slice(), xess, nb) {
                Some(res) => {
                    proof {
                        let bits = bytes_bits(buf@);
                        lemma_draw_chooses_nb(bits, xess as int, nb as int, l as nat);
                        let idx = draw_positions(bits, xess as int, nb as int, l as nat)->Some_0;
                        assert(res@.map_values(|x: &V| *x) =~= idx.map_values(|j: int| pvs[j]));
                        assert(draw_values(pvs, bits, xess as int, nb as int) == Some(res@.map_values(|x: &V| *x)));
                    }
                    return res;
                },
                None => {},
            }
            draws = draws + 1;
        }
        // no random draw gave values: bytes with every bit set always do
        let full = all_set_bytes(blen);
        proof {
            assert(nb <= l) by (nonlinear_arith)
                requires
                    nb as int == wanted_count(queried_nb as int, l as int),
                    nb > 0,
            ;
            lemma_all_set_draw(full@, xess as int, nb as int, l as nat);
        }
        match inner_cache_bv_rand(&pv, full.as_slice(), xess, nb) {
            Some(res) => {
                proof {
                    let bits = bytes_bits(full@);
                    lemma_draw_chooses_nb(bits, xess as int, nb as int, l as nat);
                    let idx = draw_positions(bits, xess as int, nb as int, l as nat)->Some_0;
                    assert(res@.map_values(|x: &V| *x) =~= idx.map_values(|j: int| pvs[j]));
                    assert(draw_values(pvs, bits, xess as int, nb as int) == Some(res@.map_values(|x: &V| *x)));
                }
                res
            },
            None => {
                proof {
                    assert(false);
                }
                Vec::new()
            },
        }
    }
}

/// A cache that keeps nothing.
pub struct NoCache<K, V>(pub PhantomData<(K, V)>);

impl<K, V> KVCache<K, V> for NoCache<K, V> {
    open spec fn well_behaved(&self) -> bool {
        true
    }

    open spec fn contents(&self) -> Map<K, V> {
        Map::empty()
    }

    open spec fn keeps_values() -> bool {
        false
    }

    open spec fn walk(&self) -> Seq<(K, V)> {
        Seq::empty()
    }

    fn add_val_c(&mut self, k: K, v: V) {
    }

    fn get_val_c(&self, k: &K) -> (r: Option<&V>) {
        None
    }

    fn has_val_c(&self, k: &K) -> (r: bool) {
        false
    }

    fn update_val_c<E, F: FnOnce(&mut V) -> Result<(), E>>(&mut self, k: &K, f: F) -> (r: Result<bool, E>) {
        Ok(false)
    }

    fn remove_val_c(&mut self, k: &K) -> (r: Option<V>) {
        None
    }

    fn strict_fold_c<'a, B, F: Fn(B, (&'a K, &'a V)) -> B>(&'a self, init: B, f: F) -> (r: B)
        where
            K: 'a,
            V: 'a,
        ensures
            r == init,
    {
        proof {
            lemma_fold_chain_empty(f, init);
        }
        init
    }

    fn fold_c<'a, B, F: FnMut(B, (&'a K, &'a V)) -> B>(&'a self, init: B, f: F) -> (r: B)
        where
            K: 'a,
            V: 'a,
        ensures
            r == init,
    {
        proof {
            lemma_fold_mut_chain_empty(f, init);
        }
        init
    }

    fn map_inplace_c<'a, E, F: FnMut((&'a K, &'a V)) -> Result<(), E>>(&'a self, f: F) -> (r: Result<(), E>)
        where
            K: 'a,
            V: 'a,
        ensures
            r is Ok,
    {
        Ok(())
    }

    fn len_c(&self) -> (r: usize) {
        0
    }

    fn len_where_c<F: Fn(&V) -> bool>(&self, f: &F) -> (r: usize)
        ensures
            r == 0,
    {
        proof {
            lemma_count_where_empty::<K, V, F>(*f);
        }
        0
    }

    fn new() -> (r: Self) {
        NoCache(PhantomData)
    }
}

/// The value of `k`, to be changed in place.
/// Calls std's `HashMap::get_mut`; claims, for keys that obey the model of
/// keys, that it gives the value of `k` when the map has one and `None`
/// otherwise, and that afterwards the map maps `k` to what the value became
/// and is unchanged elsewhere.
#[verifier::external_body]
fn hash_map_get_mut<'a, K: Hash + Eq, V>(m: &'a mut HashMap<K, V>, k: &K) -> (r: Option<&'a mut V>)
    ensures
        obeys_key_model::<K>() && builds_valid_hashers::<RandomState>() ==> match r {
            Some(v) => {
                &&& old(m)@.contains_key(*k)
                &&& *v == old(m)@[*k]
                &&& final(m)@ == old(m)@.insert(*k, *final(v))
            },
            None => !old(m)@.contains_key(*k) && final(m)@ == old(m)@,
        },
{
    m.get_mut(k)
}

/// A hash map is a cache.
impl<K: Hash + Eq, V> KVCache<K, V> for HashMap<K, V> {
    open spec fn well_behaved(&self) -> bool {
        obeys_key_model::<K>() && builds_valid_hashers::<RandomState>()
    }

    open spec fn contents(&self) -> Map<K, V> {
        self@
    }

    open spec fn keeps_values() -> bool {
        true
    }

    open spec fn walk(&self) -> Seq<(K, V)> {
        hash_map_walk(self)
    }

    fn add_val_c(&mut self, k: K, v: V) {
        self.insert(k, v);
    }

    fn get_val_c(&self, k: &K) -> (r: Option<&V>) {
        broadcast use vstd::std_specs::hash::group_hash_axioms;
        self.get(k)
    }

    fn has_val_c(&self, k: &K) -> (r: bool) {
        broadcast use vstd::std_specs::hash::group_hash_axioms;
        self.contains_key(k)
    }

    /// Updates in place: the new value is what `f` made of the old one.
    fn update_val_c<E, F: FnOnce(&mut V) -> Result<(), E>>(&mut self, k: &K, f: F) -> (r: Result<bool, E>)
        ensures
            old(self).well_behaved() && old(self)@.contains_key(*k) ==> exists|v: &mut V, fr: Result<(), E>|
                {
                    &&& *v == old(self)@[*k]
                    &&& f.ensures((v,), fr)
                    &&& final(self)@ == old(self)@.insert(*k, *final(v))
                    &&& r == match fr {
                        Ok(_) => Ok::<bool, E>(true),
                        Err(e) => Err(e),
                    }
                },
    {
        match hash_map_get_mut(self, k) {
            Some(x) => {
                match f(x) {
                    Ok(_) => Ok(true),
                    Err(e) => Err(e),
                }
            },
            None => Ok(false),
        }
    }

    fn remove_val_c(&mut self, k: &K) -> (r: Option<V>) {
        broadcast use vstd::std_specs::hash::group_hash_axioms;
        self.remove(k)
    }

    fn strict_fold_c<'a, B, F: Fn(B, (&'a K, &'a V)) -> B>(&'a self, init: B, f: F) -> (r: B)
        where
            K: 'a,
            V: 'a,
    {
        let mut res = init;
        let ghost mut acc: Seq<B> = seq![init];
        let ghost mut hist: Seq<(&'a K, &'a V)> = Seq::empty();
        let ghost f0 = f;
        for kv in it: self.iter()
            invariant
                f == f0,
                forall|b: B, kv: (&'a K, &'a V)| f.requires((b, kv)),
                acc.len() == it.index() + 1,
                hist == it.history(),
                acc[0] == init,
                acc[it.index()] == res,
                forall|i: int| 0 <= i < it.index() ==> f.ensures((acc[i], it.history()[i]), #[trigger] acc[i + 1]),
        {
            let r2 = f(res, kv);
            proof {
                acc = acc.push(r2);
            }
            res = r2;
            proof {
                hist = hist.push(kv);
            }
        }
        proof {
            assert(fold_steps(f, init, self.walk(), res, acc, hist));
        }
        res
    }

    fn fold_c<'a, B, F: FnMut(B, (&'a K, &'a V)) -> B>(&'a self, init: B, mut f: F) -> (r: B)
        where
            K: 'a,
            V: 'a,
    {
        let mut res = init;
        let ghost mut acc: Seq<B> = seq![init];
        let ghost mut hist: Seq<(&'a K, &'a V)> = Seq::empty();
        let ghost f0 = f;
        for kv in it: self.iter()
            invariant
                f == f0,
                forall|b: B, kv: (&'a K, &'a V)| f.requires((b, kv)),
                acc.len() == it.index() + 1,
                hist == it.history(),
                acc[0] == init,
                acc[it.index()] == res,
                forall|i: int| 0 <= i < it.index() ==> f.ensures((acc[i], it.history()[i]), #[trigger] acc[i + 1]),
        {
            let r2 = f(res, kv);
            proof {
                acc = acc.push(r2);
            }
            res = r2;
            proof {
                hist = hist.push(kv);
            }
        }
        res
    }

    fn map_inplace_c<'a, E, F: FnMut((&'a K, &'a V)) -> Result<(), E>>(&'a self, f: F) -> (r: Result<(), E>)
        where
            K: 'a,
            V: 'a,
    {
        let ghost f0 = f;
        let mut g = f;
        for kv in it: self.iter()
            invariant
                g == f0,
                f == f0,
                forall|kv: (&'a K, &'a V)| g.requires((kv,)),
                self.walk() =~= it.seq().unref(),
                forall|j: int| 0 <= j < it.index() ==> entry_succeeds(f, #[trigger] self.walk()[j]),
        {
            let ghost i = it.index();
            let res = g(kv);
            proof {
                assert(kv == it.seq()[i]);
                assert(self.walk()[i] == (*kv.0, *kv.1));
            }
            if res.is_err() {
                proof {
                    assert(first_failure(f, self.walk(), i, res));
                }
                return res;
            }
            proof {
                assert(entry_succeeds(f, self.walk()[i]));
            }
        }
        Ok(())
    }

    fn len_c(&self) -> (r: usize)
    {
        broadcast use vstd::std_specs::hash::group_hash_axioms;
        // the walk of a map is the sequence its iterator gives
        let it = self.iter();
        proof {
            if self.well_behaved() {
                assert(it == spec_hash_map_iter(self));
                assert(vstd::std_specs::hash::into_iter(it) == it.remaining().unref());
                assert(it.remaining().len() == self@.dom().len());
                assert(self.walk().len() == self@.dom().len());
            }
        }
        self.len()
    }

    fn len_where_c<F: Fn(&V) -> bool>(&self, f: &F) -> (r: usize)
    {
        broadcast use vstd::std_specs::hash::group_hash_axioms;
        let total = self.len();
        let mut nb: usize = 0;
        let ghost mut passes: Seq<bool> = Seq::empty();
        let ghost mut hist: Seq<(&K, &V)> = Seq::empty();
        for kv in it: self.iter()
            invariant
                forall|v: &V| f.requires((v,)),
                total == self@.len(),
                it.seq().len() == total,
                hist == it.history(),
                passes.len() == it.index(),
                nb == count_true(passes),
                nb <= it.index(),
                forall|i: int| 0 <= i < it.index() ==> f.ensures((it.history()[i].1,), #[trigger] passes[i]),
        {
            let b = f(kv.1);
            proof {
                assert(passes.push(b).drop_last() =~= passes);
            }
            if b {
                nb = nb + 1;
            }
            proof {
                passes = passes.push(b);
                hist = hist.push(kv);
            }
        }
        nb
    }

    fn new() -> (r: Self) {
        HashMap::new()
    }
}
} // verus!
