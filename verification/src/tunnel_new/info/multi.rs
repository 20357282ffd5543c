//! Reply information of the hops of a tunnel, in several modes.
use vstd::prelude::*;
use crate::tunnel_new::{RouteProvider, TunnelNoRep};

verus! {

/// How replies are handled.
#[derive(Debug, Clone, Copy, PartialEq, Eq, Structural)]
pub enum MultipleReplyMode {
    /// no reply
    NoHandling,
    /// reply to a known peer
    KnownDest,
    /// a reply route is included; the end of the payload is to be proxied
    Route,
    /// same with a route different from the query's
    OtherRoute,
    /// the route is cached by each peer and replies come back on it
    CachedRoute,
}

/// Reply info of a hop; `K` is the type of peer keys.
#[derive(Debug)]
pub enum MultipleReplyInfo<K> {
    NoHandling,
    /// key of the peer to reply to
    KnownDest(K),
    /// route headers are to be read afterward
    Route,
    /// symmetric key of the hop for the reply
    CachedRoute(Vec<u8>),
}

impl<K> MultipleReplyInfo<K> {
    /// Whether the info must be cached (a reply key on a cached route).
    pub fn do_cache(&self) -> (r: bool)
        ensures
            r == (*self is CachedRoute),
    {
        match self {
            MultipleReplyInfo::CachedRoute(_) => true,
            _ => false,
        }
    }

    /// Nothing is written after the content.
    pub fn write_after(&mut self, w: &mut Vec<u8>) -> (r: Result<(), crate::tunnel::TunnelError>)
        ensures
            r is Ok,
            final(w)@ == old(w)@,
    {
        Ok(())
    }

    /// The reply key, with cached routes.
    pub fn get_reply_key(&self) -> (r: Option<&Vec<u8>>)
        ensures
            r == (match self {
                MultipleReplyInfo::CachedRoute(k) => Some(k),
                _ => None,
            }),
    {
        match self {
            MultipleReplyInfo::CachedRoute(k) => Some(k),
            _ => None,
        }
    }
}

/// Whether `r` holds the reply infos of a route of `n` peers in reply mode
/// `mode`, for the emitter key `origin` and hop keys `keys`: with cached
/// routes each hop caches its own key; otherwise no hop but the last handles
/// replies, and the last one replies to the emitter with a known destination,
/// on a reply route with a route (the query's reversed, or the provider's
/// reply route with a different route), not at all without handling.
pub open spec fn reply_infos<K: Clone>(mode: MultipleReplyMode, origin: K, n: nat, keys: Seq<Vec<u8>>, r: Seq<MultipleReplyInfo<K>>) -> bool {
    &&& r.len() == n
    &&& mode == MultipleReplyMode::CachedRoute ==> forall|i: int| 0 <= i < n ==> (#[trigger] r[i] matches MultipleReplyInfo::<K>::CachedRoute(k) && k@ == keys[i]@)
    &&& mode != MultipleReplyMode::CachedRoute ==> {
        &&& forall|i: int| 0 <= i < n - 1 ==> #[trigger] r[i] is NoHandling
        &&& match mode {
            MultipleReplyMode::KnownDest => r[n - 1] matches MultipleReplyInfo::KnownDest(k) && cloned(origin, k),
            MultipleReplyMode::Route => r[n - 1] is Route,
            MultipleReplyMode::OtherRoute => r[n - 1] is Route,
            _ => r[n - 1] is NoHandling,
        }
    }
}

/// The reply infos of the hops of a route of `n` peers (the emitter first),
/// in reply mode `mode`: `origin_key` is the emitter's key, `keys` the fresh
/// symmetric keys of the hops with cached routes (one per peer).
pub fn new_reply<K: Clone>(mode: MultipleReplyMode, origin_key: &K, n: usize, keys: Vec<Vec<u8>>) -> (r: Vec<MultipleReplyInfo<K>>)
    requires
        n >= 2,
        mode == MultipleReplyMode::CachedRoute ==> keys@.len() == n,
    ensures
        reply_infos(mode, *origin_key, n as nat, keys@, r@),
{
    let mut res: Vec<MultipleReplyInfo<K>> = Vec::new();
    if mode == MultipleReplyMode::CachedRoute {
        let ghost k0 = keys@;
        let mut i: usize = 0;
        while i < n
            invariant
                n == k0.len(),
                i <= n,
                keys@ == k0,
                res@.len() == i,
                forall|j: int| 0 <= j < i ==> (#[trigger] res@[j] matches MultipleReplyInfo::<K>::CachedRoute(k) && k@ == k0[j]@),
            decreases n - i,
        {
            let k = keys[i].clone();
            res.push(MultipleReplyInfo::CachedRoute(k));
            i = i + 1;
        }
        return res;
    }
    let mut i: usize = 0;
    while i < n - 1
        invariant
            n >= 2,
            i <= n - 1,
            res@.len() == i,
            forall|j: int| 0 <= j < i ==> #[trigger] res@[j] is NoHandling,
        decreases n - 1 - i,
    {
        res.push(MultipleReplyInfo::NoHandling);
        i = i + 1;
    }
    let last = match mode {
        MultipleReplyMode::KnownDest => MultipleReplyInfo::KnownDest(origin_key.clone()),
        MultipleReplyMode::Route => MultipleReplyInfo::Route,
        MultipleReplyMode::OtherRoute => MultipleReplyInfo::Route,
        _ => MultipleReplyInfo::NoHandling,
    };
    res.push(last);
    res
}

/// A reply info with the writer of its reply route, if any (the destination's
/// with a reply route).
pub struct ReplyInfo<K, TW> {
    pub info: MultipleReplyInfo<K>,
    pub replyroute: Option<TW>,
}

/// The peers of `route` in reverse order.
pub fn reversed_route<'a, P>(route: &[&'a P]) -> (r: Vec<&'a P>)
    ensures
        r@ == route@.reverse(),
{
    let mut r: Vec<&'a P> = Vec::new();
    let mut i: usize = route.len();
    while i > 0
        invariant
            i <= route@.len(),
            r@ =~= route@.subrange(i as int, route@.len() as int).reverse(),
        decreases i,
    {
        i = i - 1;
        r.push(route[i]);
        proof {
            assert(route@.subrange(i as int, route@.len() as int).reverse() =~= route@.subrange(
                i + 1,
                route@.len() as int,
            ).reverse().push(route@[i as int]));
        }
    }
    proof {
        assert(route@.subrange(0, route@.len() as int) =~= route@);
    }
    r
}

/// `r` is what making the writer of the reply route of the destination of
/// `route` gives, the tunnel being `tunrep` and the route provider `routeprov`
/// before their calls: in Route mode a writer over `route` reversed; in
/// OtherRoute mode a writer over a reply route the provider gives to the
/// destination (the last peer of `route`); none in the other modes.
pub open spec fn reply_route_made<P, TNR: TunnelNoRep<P = P>, RP: RouteProvider<P>>(
    tunrep: TNR,
    routeprov: RP,
    mode: MultipleReplyMode,
    route: Seq<&P>,
    r: Option<TNR::TW>,
) -> bool {
    match mode {
        MultipleReplyMode::Route => r matches Some(tw) && tunrep.writer_over(route.reverse(), tw),
        MultipleReplyMode::OtherRoute => r matches Some(tw) && exists|rr: Seq<&P>|
            #[trigger] routeprov.gives_reply_route(*route.last(), rr) && tunrep.writer_over(rr, tw),
        _ => r is None,
    }
}

/// The writer of the reply route of the destination of `route` (the emitter
/// first): with a reply route, a writer with no reply over the route reversed,
/// or over the provider's reply route to the destination when it differs from
/// the query's; none in the other modes.
pub fn reply_route_writer<P, TNR: TunnelNoRep<P = P>, RP: RouteProvider<P>>(
    mode: MultipleReplyMode,
    route: &[&P],
    tunrep: &mut TNR,
    routeprov: &mut RP,
) -> (r: Option<TNR::TW>)
    requires
        route@.len() >= 1,
    ensures
        reply_route_made(*old(tunrep), *old(routeprov), mode, route@, r),
{
    match mode {
        MultipleReplyMode::Route => {
            let rev = reversed_route(route);
            Some(tunrep.new_tunnel_writer_with_route(rev.as_slice()))
        },
        MultipleReplyMode::OtherRoute => {
            let rr = routeprov.new_reply_route(route[route.len() - 1]);
            let tw = tunrep.new_tunnel_writer_with_route(rr.as_slice());
            proof {
                assert(old(routeprov).gives_reply_route(*route@.last(), rr@));
            }
            Some(tw)
        },
        _ => None,
    }
}

/// The reply infos of the hops of `route` (the emitter first) in reply mode
/// `mode`, as `new_reply` gives them, the destination's with the writer of its
/// reply route when it has one.
pub fn new_reply_with_routes<K: Clone, P, TNR: TunnelNoRep<P = P>, RP: RouteProvider<P>>(
    mode: MultipleReplyMode,
    origin_key: &K,
    route: &[&P],
    keys: Vec<Vec<u8>>,
    tunrep: &mut TNR,
    routeprov: &mut RP,
) -> (r: Vec<ReplyInfo<K, TNR::TW>>)
    requires
        route@.len() >= 2,
        mode == MultipleReplyMode::CachedRoute ==> keys@.len() == route@.len(),
    ensures
        reply_infos(mode, *origin_key, route@.len(), keys@, r@.map_values(|x: ReplyInfo<K, TNR::TW>| x.info)),
        forall|i: int| 0 <= i < r@.len() - 1 ==> (#[trigger] r@[i]).replyroute is None,
        reply_route_made(*old(tunrep), *old(routeprov), mode, route@, r@[route@.len() - 1].replyroute),
{
    let n = route.len();
    let mut infos = new_reply(mode, origin_key, n, keys);
    let ghost all = infos@;
    let mut r: Vec<ReplyInfo<K, TNR::TW>> = Vec::new();
    let mut i: usize = 0;
    while i < n - 1
        invariant
            n == route@.len(),
            n >= 2,
            all.len() == n,
            i <= n - 1,
            infos@ == all.skip(i as int),
            r@.len() == i,
            forall|j: int| 0 <= j < i ==> (#[trigger] r@[j]).info == all[j],
            forall|j: int| 0 <= j < i ==> (#[trigger] r@[j]).replyroute is None,
        decreases n - 1 - i,
    {
        let info = infos.remove(0);
        proof {
            assert(all.skip(i + 1) =~= all.skip(i as int).remove(0));
        }
        r.push(ReplyInfo { info, replyroute: None });
        i = i + 1;
    }
    let info = infos.remove(0);
    let replyroute = reply_route_writer(mode, route, tunrep, routeprov);
    r.push(ReplyInfo { info, replyroute });
    proof {
        assert(r@.map_values(|x: ReplyInfo<K, TNR::TW>| x.info) =~= all);
    }
    r
}

} // verus!
