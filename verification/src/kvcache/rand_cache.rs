//! A cache that keeps a store of random bytes for its random choices of
//! values, so that the random source is called less often.
use vstd::prelude::*;
use std::marker::PhantomData;
use super::{
    KVCache,
    first_failure,
    random_choice,
    all_set_bytes,
    lemma_all_set_draw,
    bytes_for,
    excess_bits,
    wanted_count,
    draw_positions,
    draw_values,
    bytes_bits,
    inner_cache_bv_rand,
    lemma_collect_values,
    lemma_draw_chooses_nb,
    push_value,
    fill_random,
};

verus! {

/// Default number of random bytes kept.
const DEF_RANDCACHE_SIZE: usize = 128;

/// Random bytes (those from `pos` on not used yet), and the share of the
/// values a choice takes at most: `numratio / denratio`.
struct RandomStore {
    bytes: Vec<u8>,
    pos: usize,
    numratio: usize,
    denratio: usize,
}

impl RandomStore {
    #[verifier::type_invariant]
    spec fn inv(self) -> bool {
        &&& self.pos <= self.bytes@.len()
        &&& self.numratio == 2
        &&& self.denratio == 3
    }

    /// `len` random bytes, and two thirds as the share.
    fn new(len: usize) -> (r: Self)
        ensures
            r.bytes@.len() == len,
            r.pos == 0,
    {
        let mut bytes = vec![0u8; len];
        fill_random(&mut bytes);
        RandomStore { bytes, pos: 0, numratio: 2, denratio: 3 }
    }

    /// The share of `l` values a choice takes at most.
    fn share_of(&self, l: usize) -> (r: usize)
        requires
            l * 2 <= usize::MAX,
        ensures
            r == l * 2 / 3,
    {
        proof {
            use_type_invariant(self);
        }
        l * self.numratio / self.denratio
    }

    /// Where the next `vlen` unused bytes start: the bytes after the unused
    /// position when more than `vlen` are left, otherwise the start of a new
    /// store of random bytes (grown to `vlen` if smaller).
    fn next_bytes(&mut self, vlen: usize) -> (start: usize)
        ensures
            start + vlen <= final(self).bytes.len(),
    {
        proof {
            use_type_invariant(&*self);
        }
        if vlen < self.bytes.len() - self.pos {
            self.pos = self.pos + vlen;
            self.pos - vlen
        } else {
            let mut fresh: Vec<u8> = Vec::new();
            self.pos = 0;
            std::mem::swap(&mut fresh, &mut self.bytes);
            if vlen > fresh.len() {
                fresh = vec![0u8; vlen];
            }
            fill_random(&mut fresh);
            self.bytes = fresh;
            self.pos = vlen;
            0
        }
    }
}

/// A cache `C` with a store of random bytes for its random choices.
pub struct RandCache<K, V, C: KVCache<K, V>> {
    cache: C,
    rand: RandomStore,
    _phdat: PhantomData<(K, V)>,
}

impl<K, V, C: KVCache<K, V>> RandCache<K, V, C> {
    /// The wrapped cache.
    pub closed spec fn inner(self) -> C {
        self.cache
    }

    /// Wraps `c`, with the default number of random bytes.
    pub fn new(c: C) -> (r: Self)
        ensures
            r.inner() == c,
    {
        Self::new_add(c, DEF_RANDCACHE_SIZE)
    }

    /// Wraps `c`, with `rcachebytelength` random bytes.
    pub fn new_add(c: C, rcachebytelength: usize) -> (r: Self)
        ensures
            r.inner() == c,
    {
        RandCache { cache: c, rand: RandomStore::new(rcachebytelength), _phdat: PhantomData }
    }

    /// Up to `queried_nb` random values of the cache, in the order of its
    /// entries: at most two thirds of them, so that the choice stays random.
    /// Draws take their random bytes from the store, which is refilled (and
    /// grown if too small) when it runs out; draws are taken until one gives
    /// values (after `u64::MAX` draws that gave none, bytes with every bit
    /// set are used, which always give values).
    pub fn next_random_values<'a>(&'a mut self, queried_nb: usize) -> (r: Vec<&'a V>)
        where
            K: 'a,
            V: 'a,
        requires
            old(self).well_behaved(),
            old(self).walk().len() * 2 <= usize::MAX,
        ensures
            final(self).inner() == old(self).inner(),
            random_choice(
                old(self).walk().map_values(|kv: (K, V)| kv.1),
                queried_nb as int,
                r@.map_values(|x: &V| *x),
            ),
    {
        let empty: Vec<&'a V> = Vec::new();
        let ghost empty0 = empty;
        let all = self.cache.strict_fold_c(empty, push_value::<K, V>);
        let ghost walk = self.cache.walk();
        let ghost pvs = all@.map_values(|x: &V| *x);
        proof {
            lemma_collect_values(push_value::<K, V>, empty0, walk, all);
            assert(pvs =~= walk.map_values(|kv: (K, V)| kv.1));
        }
        let l = all.len();
        let randrat = self.rand.share_of(l);
        let nb = if queried_nb > randrat {
            randrat
        } else {
            queried_nb
        };
        if nb == 0 {
            return Vec::new();
        }
        let xess: usize = if l % 8 == 0 {
            0
        } else {
            8 - l % 8
        };
        let vlen: usize = if xess == 0 {
            l / 8
        } else {
            l / 8 + 1
        };
        let mut draws: u64 = 0;
        while draws < u64::MAX
            invariant
                vlen == bytes_for(l as int),
                xess == excess_bits(l as int),
                xess + l == vlen * 8,
                vlen * 8 <= usize::MAX,
                nb > 0,
                nb == wanted_count(queried_nb as int, l as int),
                l == all@.len(),
                pvs == all@.map_values(|x: &V| *x),
                pvs == old(self).walk().map_values(|kv: (K, V)| kv.1),
                self.cache == old(self).cache,
            decreases u64::MAX - draws,
        {
            let start = self.rand.next_bytes(vlen);
            let v = vstd::slice::slice_subrange(self.rand.bytes.as_slice(), start, start + vlen);
            match inner_cache_bv_rand(&all, v, xess, nb) {
                Some(res) => {
                    proof {
                        let bits = bytes_bits(v@);
                        lemma_draw_chooses_nb(bits, xess as int, nb as int, l as nat);
                        let idx = draw_positions(bits, xess as int, nb as int, l as nat)->Some_0;
                        assert(res@.map_values(|x: &V| *x) =~= idx.map_values(|j: int| pvs[j]));
                        assert(draw_values(pvs, bits, xess as int, nb as int) == Some(res@.map_values(|x: &V| *x)));
                    }
                    return res;
                },
                None => {},
            }
            draws = draws + 1;
        }
        // no random draw gave values: bytes with every bit set always do
        let full = all_set_bytes(vlen);
        proof {
            assert(nb <= l) by (nonlinear_arith)
                requires
                    nb as int == wanted_count(queried_nb as int, l as int),
                    nb > 0,
            ;
            lemma_all_set_draw(full@, xess as int, nb as int, l as nat);
        }
        match inner_cache_bv_rand(&all, full.as_slice(), xess, nb) {
            Some(res) => {
                proof {
                    let bits = bytes_bits(full@);
                    lemma_draw_chooses_nb(bits, xess as int, nb as int, l as nat);
                    let idx = draw_positions(bits, xess as int, nb as int, l as nat)->Some_0;
                    assert(res@.map_values(|x: &V| *x) =~= idx.map_values(|j: int| pvs[j]));
                    assert(draw_values(pvs, bits, xess as int, nb as int) == Some(res@.map_values(|x: &V| *x)));
                }
                res
            },
            None => {
                proof {
                    assert(false);
                }
                Vec::new()
            },
        }
    }
}

/// A random store over a cache is a cache: it does what the wrapped cache does.
impl<K, V, C: KVCache<K, V>> KVCache<K, V> for RandCache<K, V, C> {
    open spec fn well_behaved(&self) -> bool {
        self.inner().well_behaved()
    }

    open spec fn contents(&self) -> Map<K, V> {
        self.inner().contents()
    }

    open spec fn keeps_values() -> bool {
        C::keeps_values()
    }

    open spec fn walk(&self) -> Seq<(K, V)> {
        self.inner().walk()
    }

    fn add_val_c(&mut self, k: K, v: V) {
        self.cache.add_val_c(k, v)
    }

    fn get_val_c(&self, k: &K) -> (r: Option<&V>) {
        self.cache.get_val_c(k)
    }

    fn has_val_c(&self, k: &K) -> (r: bool) {
        self.cache.has_val_c(k)
    }

    fn update_val_c<E, F: FnOnce(&mut V) -> Result<(), E>>(&mut self, k: &K, f: F) -> (r: Result<bool, E>) {
        self.cache.update_val_c(k, f)
    }

    fn remove_val_c(&mut self, k: &K) -> (r: Option<V>) {
        self.cache.remove_val_c(k)
    }

    fn strict_fold_c<'a, B, F: Fn(B, (&'a K, &'a V)) -> B>(&'a self, init: B, f: F) -> (r: B)
        where
            K: 'a,
            V: 'a,
    {
        self.cache.strict_fold_c(init, f)
    }

    fn fold_c<'a, B, F: FnMut(B, (&'a K, &'a V)) -> B>(&'a self, init: B, f: F) -> (r: B)
        where
            K: 'a,
            V: 'a,
    {
        self.cache.fold_c(init, f)
    }

    fn map_inplace_c<'a, E, F: FnMut((&'a K, &'a V)) -> Result<(), E>>(&'a self, f: F) -> (r: Result<(), E>)
        where
            K: 'a,
            V: 'a,
    {
        let r = self.cache.map_inplace_c(f);
        proof {
            if r is Err {
                let j = choose|j: int| first_failure(f, self.cache.walk(), j, r);
                assert(first_failure(f, self.walk(), j, r));
            }
        }
        r
    }

    fn len_c(&self) -> (r: usize) {
        self.cache.len_c()
    }

    fn len_where_c<F: Fn(&V) -> bool>(&self, f: &F) -> (r: usize) {
        self.cache.len_where_c(f)
    }

    fn new() -> (r: Self) {
        RandCache::new(C::new())
    }
}

} // verus!
