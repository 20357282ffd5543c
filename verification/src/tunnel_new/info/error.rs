//! Error information of the hops of a tunnel: either none, or an error code
//! per hop for routes cached by each peer.
use vstd::prelude::*;
use rand::Rng;
use rand::rngs::OsRng;
use super::super::ErrorProvider;

verus! {

/// How errors are handled.
#[derive(Debug, Clone, Copy, PartialEq, Eq, Structural)]
pub enum MultipleErrorMode {
    /// errors are not propagated
    NoHandling,
    /// errors are sent to a known peer
    KnownDest,
    /// the route is cached by each peer and errors come back on it
    CachedRoute,
}

/// Error info of a hop.
#[derive(Debug, Clone, Copy, PartialEq, Eq, Structural)]
pub enum MultipleErrorInfo {
    NoHandling,
    /// error code of the hop
    CachedRoute(usize),
}

impl MultipleErrorInfo {
    /// Whether the info must be cached (an error code on a cached route).
    pub fn do_cache(&self) -> (r: bool)
        ensures
            r == (*self is CachedRoute),
    {
        if let MultipleErrorInfo::CachedRoute(_) = self {
            true
        } else {
            false
        }
    }
}

/// A random error code.
/// Calls rand's `Rng::gen::<usize>()` on `OsRng` (the operating system's
/// random source); nothing is claimed of the value.
#[verifier::external_body]
fn random_error_code() -> (r: usize) {
    OsRng.gen::<usize>()
}

/// Error provider for the error modes: a limiter prototype `E`, a tunnel for
/// the error replies `TNR`, a route provider `RP`.
pub struct MulErrorProvider<E, TNR, RP> {
    pub mode: MultipleErrorMode,
    pub lim: E,
    pub tunrep: TNR,
    /// minimum length of a reply tunnel (for a same route reply: shorter means
    /// no reply)
    pub mintunlength: usize,
    /// provider of different reply routes
    pub routeprov: RP,
}

impl<P, E, TNR, RP> ErrorProvider<P, MultipleErrorInfo> for MulErrorProvider<E, TNR, RP> {
    /// One info per hop after the emitter: a random code with cached routes,
    /// none otherwise.
    open spec fn gives_error_infos(&self, route: Seq<&P>, r: Seq<MultipleErrorInfo>) -> bool {
        &&& route.len() > 0 ==> r.len() == route.len() - 1
        &&& route.len() == 0 ==> r.len() == 0
        &&& forall|i: int|
            0 <= i < r.len() ==> if self.mode is CachedRoute {
                #[trigger] r[i] is CachedRoute
            } else {
                r[i] == MultipleErrorInfo::NoHandling
            }
    }

    /// Error infos for the hops of `route` after the emitter: none, or a random
    /// error code for each with cached routes. The route includes the emitter.
    fn new_error_route(&mut self, route: &[&P]) -> (r: Vec<MultipleErrorInfo>)
        ensures
            route@.len() > 0 ==> r@.len() == route@.len() - 1,
            route@.len() > 0 ==> forall|i: int|
                0 <= i < r@.len() ==> if old(self).mode is CachedRoute {
                    #[trigger] r@[i] is CachedRoute
                } else {
                    r@[i] == MultipleErrorInfo::NoHandling
                },
            route@.len() == 0 ==> r@.len() == 0,
    {
        let n = route.len();
        let mut res: Vec<MultipleErrorInfo> = Vec::new();
        if n == 0 {
            return res;
        }
        let mut i: usize = 1;
        while i < n
            invariant
                1 <= i <= n,
                n == route@.len(),
                res@.len() == i - 1,
                self.mode == old(self).mode,
                forall|j: int|
                    0 <= j < res@.len() ==> if self.mode is CachedRoute {
                        #[trigger] res@[j] is CachedRoute
                    } else {
                        res@[j] == MultipleErrorInfo::NoHandling
                    },
            decreases n - i,
        {
            match self.mode {
                MultipleErrorMode::NoHandling | MultipleErrorMode::KnownDest => {
                    res.push(MultipleErrorInfo::NoHandling);
                },
                MultipleErrorMode::CachedRoute => {
                    let errorid = random_error_code();
                    res.push(MultipleErrorInfo::CachedRoute(errorid));
                },
            }
            i = i + 1;
        }
        res
    }
}

/// Error provider with no error handling.
pub struct NoErrorProvider;

impl<P> ErrorProvider<P, MultipleErrorInfo> for NoErrorProvider {
    /// No error info for each peer of the route.
    open spec fn gives_error_infos(&self, route: Seq<&P>, r: Seq<MultipleErrorInfo>) -> bool {
        &&& r.len() == route.len()
        &&& forall|i: int| 0 <= i < r.len() ==> #[trigger] r[i] == MultipleErrorInfo::NoHandling
    }

    /// No error info for each peer of the route.
    fn new_error_route(&mut self, p: &[&P]) -> (r: Vec<MultipleErrorInfo>)
        ensures
            r@.len() == p@.len(),
            forall|i: int| 0 <= i < r@.len() ==> #[trigger] r@[i] == MultipleErrorInfo::NoHandling,
    {
        let n = p.len();
        let mut res: Vec<MultipleErrorInfo> = Vec::new();
        let mut i: usize = 0;
        while i < n
            invariant
                0 <= i <= n,
                res@.len() == i,
                forall|j: int| 0 <= j < res@.len() ==> #[trigger] res@[j] == MultipleErrorInfo::NoHandling,
            decreases n - i,
        {
            res.push(MultipleErrorInfo::NoHandling);
            i = i + 1;
        }
        res
    }
}

} // verus!
