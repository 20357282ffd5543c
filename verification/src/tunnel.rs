//! Tunnel modes: how a message is routed through several peers (layered
//! shadowing of headers and content), how replies come back, and how errors on
//! the route are reported to the emitter.
//!
//! Error codes: every hop of a route gets a random error code. A peer that
//! cannot reach the next one replies with its own code; every proxy on the way
//! back xors the code it receives with its own. The emitter, who knows all the
//! codes, xors the received value with the codes of the route in order until
//! it reaches 0: the index where it does is the peer that reported the error.
use vstd::prelude::*;
use crate::bytes_wr::{
    BytesWR, ByteSource, BwrError, rest_of, min_nat, lemma_rest_of_self, lemma_rest_of_skip, lemma_rest_of_trans,
    read_chunks, read_frame, write_chunks, write_frame, skipped_frame, concat_chunks,
    read_u64_be_from, write_u64_be, be_bytes, be_value,
};

verus! {

/// Shadowing of tunnel content.
#[derive(Debug, Clone, Copy, PartialEq, Eq, Structural)]
pub enum TunnelShadowMode {
    /// no shadowing (for tests)
    NoShadow,
    /// every layer shadows the whole content
    Full,
    /// only the destination key shadows the content; headers are layered
    Last,
    /// same as last, with the same shadower for headers and content
    LastDefault,
}

/// State of a tunnel frame.
#[derive(Debug, Clone, Copy, PartialEq, Eq, Structural)]
pub enum TunnelState {
    /// no tunnel
    TunnelState,
    /// query with all info to establish the route (and the reply)
    QueryOnce,
    /// query whose info is cached
    QueryCached,
    /// reply with no additional info for reuse
    ReplyOnce,
    /// reply whose info is cached
    ReplyCached,
    /// error of a query (errors are only for queries)
    QError,
    /// same as `QError` with no route, only the cache id; the error code is
    /// the xor of the received code with ours
    QErrorCached,
}

/// How errors on the route are handled.
#[derive(Debug, PartialEq, Eq)]
pub enum ErrorHandlingMode {
    /// errors are not propagated
    NoHandling,
    /// the error is sent to a known peer, with a possible tunnel mode for the
    /// reply when it differs from the query's mode
    KnownDest(Option<Box<TunnelMode>>),
    /// a route for the error is included in the frame
    ErrorRoute,
    /// the route is cached by each peer and errors come back on it
    ErrorCachedRoute,
}

/// The way a query is routed. The hop count is an indication of the length of
/// the route.
#[derive(Debug, PartialEq, Eq)]
pub enum TunnelMode {
    /// direct
    NoTunnel,
    /// single path (query and reply share the route): hops, shadowing, errors
    Tunnel(u8, TunnelShadowMode, ErrorHandlingMode),
    /// different paths for query and reply: hops, shadowing, whether errors
    /// use the query route, errors
    BiTunnel(u8, TunnelShadowMode, bool, ErrorHandlingMode),
    /// no reply expected: hops, shadowing, errors
    NoRepTunnel(u8, TunnelShadowMode, ErrorHandlingMode),
}

/// A copy of a tunnel mode.
pub fn clone_tunnel_mode(m: &TunnelMode) -> (r: TunnelMode)
    ensures
        r == *m,
    decreases m,
{
    match m {
        TunnelMode::NoTunnel => TunnelMode::NoTunnel,
        TunnelMode::Tunnel(n, s, e) => TunnelMode::Tunnel(*n, *s, clone_error_handling_mode(e)),
        TunnelMode::BiTunnel(n, s, b, e) => TunnelMode::BiTunnel(*n, *s, *b, clone_error_handling_mode(e)),
        TunnelMode::NoRepTunnel(n, s, e) => TunnelMode::NoRepTunnel(*n, *s, clone_error_handling_mode(e)),
    }
}

/// A copy of an error handling mode.
pub fn clone_error_handling_mode(e: &ErrorHandlingMode) -> (r: ErrorHandlingMode)
    ensures
        r == *e,
    decreases e,
{
    match e {
        ErrorHandlingMode::NoHandling => ErrorHandlingMode::NoHandling,
        ErrorHandlingMode::KnownDest(o) => ErrorHandlingMode::KnownDest(
            match o {
                Some(b) => Some(Box::new(clone_tunnel_mode(&**b))),
                None => None,
            },
        ),
        ErrorHandlingMode::ErrorRoute => ErrorHandlingMode::ErrorRoute,
        ErrorHandlingMode::ErrorCachedRoute => ErrorHandlingMode::ErrorCachedRoute,
    }
}

impl Clone for TunnelMode {
    fn clone(&self) -> (r: Self)
        ensures
            r == *self,
    {
        clone_tunnel_mode(self)
    }
}

impl Clone for ErrorHandlingMode {
    fn clone(&self) -> (r: Self)
        ensures
            r == *self,
    {
        clone_error_handling_mode(self)
    }
}

/// Error handling info included in a frame for one hop (also used for reply);
/// `K` is the type of peer keys.
#[derive(Debug)]
pub enum ErrorHandlingInfo<K> {
    NoHandling,
    /// key of the peer to report to, and a possible reply mode
    KnownDest(K, Option<TunnelMode>),
    /// route headers are to be read afterward
    ErrorRoute,
    /// error code of the hop (the route is cached)
    ErrorCachedRoute(usize),
}

impl<K> ErrorHandlingInfo<K> {
    /// The error code, 0 if there is none.
    pub fn get_error_code(&self) -> (r: usize)
        ensures
            r == (match self {
                ErrorHandlingInfo::ErrorCachedRoute(ec) => *ec,
                _ => 0usize,
            }),
    {
        match self {
            ErrorHandlingInfo::ErrorCachedRoute(ec) => *ec,
            _ => 0,
        }
    }
}

/// Info of a hop for its proxy: next peer address (`A`), tunnel cache id,
/// failure id, error handling info.
pub struct TunnelProxyInfo<A, K> {
    pub next_proxy_peer: Option<A>,
    pub tunnel_id: usize,
    pub tunnel_id_failure: Option<usize>,
    pub error_handle: ErrorHandlingInfo<K>,
}

impl TunnelMode {
    /// Whether cache ids are sent to the next peer (the same for all hops).
    pub open spec fn caches(&self) -> bool {
        match self {
            TunnelMode::NoTunnel => false,
            TunnelMode::Tunnel(_, _, b) => b is ErrorCachedRoute || b is ErrorRoute,
            TunnelMode::BiTunnel(_, _, _, b) => b is ErrorCachedRoute,
            TunnelMode::NoRepTunnel(_, _, b) => b is ErrorCachedRoute,
        }
    }

    /// Whether error routes are inserted for each hop.
    pub open spec fn inserts_error_route(&self) -> bool {
        match self {
            TunnelMode::NoTunnel => false,
            TunnelMode::Tunnel(_, _, b) => b is ErrorRoute,
            TunnelMode::BiTunnel(_, _, _, b) => b is ErrorRoute,
            TunnelMode::NoRepTunnel(_, _, b) => b is ErrorRoute,
        }
    }

    /// The error handling mode.
    pub open spec fn error_mode(&self) -> ErrorHandlingMode {
        match self {
            TunnelMode::NoTunnel => ErrorHandlingMode::NoHandling,
            TunnelMode::Tunnel(_, _, b) => *b,
            TunnelMode::BiTunnel(_, _, _, b) => *b,
            TunnelMode::NoRepTunnel(_, _, b) => *b,
        }
    }

    /// The shadowing mode.
    pub open spec fn shadow_mode(&self) -> TunnelShadowMode {
        match self {
            TunnelMode::NoTunnel => TunnelShadowMode::NoShadow,
            TunnelMode::Tunnel(_, s, _) => *s,
            TunnelMode::BiTunnel(_, s, _, _) => *s,
            TunnelMode::NoRepTunnel(_, s, _) => *s,
        }
    }

    /// Do we send cache id to next peer. The value must be the same for all
    /// hops including the destination (otherwise it may not read an included
    /// cache id).
    pub fn do_cache(&self) -> (r: bool)
        ensures
            r == self.caches(),
            *self is NoTunnel ==> !r,
            *self is Tunnel ==> (r <==> (self.error_mode() is ErrorCachedRoute || self.error_mode() is ErrorRoute)),
            *self is BiTunnel ==> (r <==> self.error_mode() is ErrorCachedRoute),
            *self is NoRepTunnel ==> (r <==> self.error_mode() is ErrorCachedRoute),
    {
        match self {
            TunnelMode::NoTunnel => false,
            TunnelMode::Tunnel(_, _, b) => {
                match b {
                    ErrorHandlingMode::ErrorCachedRoute => true,
                    ErrorHandlingMode::ErrorRoute => true,
                    _ => false,
                }
            },
            TunnelMode::BiTunnel(_, _, _, b) => {
                match b {
                    ErrorHandlingMode::ErrorCachedRoute => true,
                    _ => false,
                }
            },
            TunnelMode::NoRepTunnel(_, _, b) => {
                match b {
                    ErrorHandlingMode::ErrorCachedRoute => true,
                    _ => false,
                }
            },
        }
    }

    /// Do we need to insert an error route for each hop.
    pub fn insert_error_route(&self) -> (r: bool)
        ensures
            r == self.inserts_error_route(),
            r == self.error_mode() is ErrorRoute,
    {
        match self {
            TunnelMode::NoTunnel => false,
            TunnelMode::Tunnel(_, _, b) => {
                match b {
                    ErrorHandlingMode::ErrorRoute => true,
                    _ => false,
                }
            },
            TunnelMode::BiTunnel(_, _, _, b) => {
                match b {
                    ErrorHandlingMode::ErrorRoute => true,
                    _ => false,
                }
            },
            TunnelMode::NoRepTunnel(_, _, b) => {
                match b {
                    ErrorHandlingMode::ErrorRoute => true,
                    _ => false,
                }
            },
        }
    }

    /// A copy of the error handling mode.
    pub fn errhandling_mode(&self) -> (r: ErrorHandlingMode)
        ensures
            r == self.error_mode(),
    {
        match self {
            TunnelMode::NoTunnel => ErrorHandlingMode::NoHandling,
            TunnelMode::Tunnel(_, _, b) | TunnelMode::BiTunnel(_, _, _, b) | TunnelMode::NoRepTunnel(
                _,
                _,
                b,
            ) => b.clone(),
        }
    }

    /// The shadowing mode.
    pub fn tunnel_shadow_mode(&self) -> (r: TunnelShadowMode)
        ensures
            r == self.shadow_mode(),
    {
        match self {
            TunnelMode::NoTunnel => TunnelShadowMode::NoShadow,
            TunnelMode::Tunnel(_, b, _) | TunnelMode::BiTunnel(_, b, _, _) | TunnelMode::NoRepTunnel(
                _,
                b,
                _,
            ) => *b,
        }
    }

    /// Whether the whole content is shadowed by every layer.
    pub fn is_full_enc(&self) -> (r: bool)
        ensures
            r == (self.shadow_mode() == TunnelShadowMode::Full),
    {
        TunnelShadowMode::Full == self.tunnel_shadow_mode()
    }

    /// Whether the head mode applies (headers layered, content for the
    /// destination only).
    pub fn head_mode(&self) -> (r: bool)
        ensures
            r == (self.shadow_mode() == TunnelShadowMode::Last),
    {
        TunnelShadowMode::Last == self.tunnel_shadow_mode()
    }

    /// Whether content uses a distinct encoding (heterogeneous).
    pub fn is_het(&self) -> (r: bool)
        ensures
            r == (self.shadow_mode() == TunnelShadowMode::Last),
    {
        self.tunnel_shadow_mode().is_het()
    }

    /// The state of the frame that reports an error on this mode's route:
    /// `None` when errors are not propagated. (Known destination error
    /// reporting is not supported on a hop.)
    pub fn report_error_state(&self) -> (r: Option<TunnelState>)
        requires
            !(self.error_mode() is KnownDest),
        ensures
            r == (match self.error_mode() {
                ErrorHandlingMode::ErrorRoute => Some(TunnelState::QError),
                ErrorHandlingMode::ErrorCachedRoute => Some(TunnelState::QErrorCached),
                _ => None::<TunnelState>,
            }),
    {
        let m = self.errhandling_mode();
        match m {
            ErrorHandlingMode::NoHandling => None,
            ErrorHandlingMode::KnownDest(_) => None,
            ErrorHandlingMode::ErrorRoute => Some(TunnelState::QError),
            ErrorHandlingMode::ErrorCachedRoute => Some(TunnelState::QErrorCached),
        }
    }
}

impl TunnelShadowMode {
    /// Whether content uses a distinct encoding.
    pub fn is_het(&self) -> (r: bool)
        ensures
            r == (*self == TunnelShadowMode::Last),
    {
        TunnelShadowMode::Last == *self
    }
}

/// The error handling info of hop `i` of a route of `n` hops whose first entry
/// has key `k0`.
pub open spec fn errhandling_info_at<K>(mode: TunnelMode, k0: K, codes: Seq<usize>, i: int) -> ErrorHandlingInfo<K> {
    match mode {
        TunnelMode::NoTunnel => ErrorHandlingInfo::NoHandling,
        _ => {
            let tunnel = mode is Tunnel;
            match mode.error_mode() {
                ErrorHandlingMode::NoHandling if !tunnel => ErrorHandlingInfo::NoHandling,
                ErrorHandlingMode::KnownDest(ob) if !tunnel => {
                    if i == codes.len() - 1 {
                        ErrorHandlingInfo::KnownDest(
                            k0,
                            match ob {
                                Some(b) => Some(*b),
                                None => None,
                            },
                        )
                    } else {
                        ErrorHandlingInfo::NoHandling
                    }
                },
                ErrorHandlingMode::ErrorRoute if !tunnel => ErrorHandlingInfo::ErrorRoute,
                _ => ErrorHandlingInfo::ErrorCachedRoute(codes[i]),
            }
        },
    }
}

/// A single path tunnel gives each hop its own error code, whatever its error
/// handling mode; so does any tunnel with cached error routes; without a
/// tunnel no hop handles errors; other tunnels with error routes give each
/// hop an error route.
pub proof fn lemma_errhandling_infos<K>(mode: TunnelMode, k0: K, codes: Seq<usize>, i: int)
    ensures
        mode is Tunnel ==> errhandling_info_at(mode, k0, codes, i) == ErrorHandlingInfo::<K>::ErrorCachedRoute(
            codes[i],
        ),
        !(mode is Tunnel) && !(mode is NoTunnel) && mode.error_mode() is NoHandling ==> errhandling_info_at(
            mode,
            k0,
            codes,
            i,
        ) is NoHandling,
        !(mode is Tunnel) && !(mode is NoTunnel) && mode.error_mode() is KnownDest && i != codes.len() - 1
            ==> errhandling_info_at(mode, k0, codes, i) is NoHandling,
        !(mode is Tunnel) && !(mode is NoTunnel) && mode.error_mode() is KnownDest && i == codes.len() - 1
            ==> (errhandling_info_at(mode, k0, codes, i) matches ErrorHandlingInfo::KnownDest(k, _) && k == k0),
        mode.error_mode() is ErrorCachedRoute && !(mode is NoTunnel) ==> errhandling_info_at(mode, k0, codes, i)
            == ErrorHandlingInfo::<K>::ErrorCachedRoute(codes[i]),
        mode is NoTunnel ==> errhandling_info_at(mode, k0, codes, i) is NoHandling,
        !(mode is Tunnel) && !(mode is NoTunnel) && mode.error_mode() is ErrorRoute ==> errhandling_info_at(
            mode,
            k0,
            codes,
            i,
        ) is ErrorRoute,
{
}

/// A cache id goes with a frame exactly for a single path tunnel with error
/// routes, cached or not, and for the other tunnels with cached error routes
/// only: no-reply and bidirectional tunnels with error routes send none, and
/// without a tunnel there is none.
pub proof fn lemma_cache_ids(mode: TunnelMode)
    ensures
        mode is NoTunnel ==> !mode.caches(),
        mode is Tunnel ==> (mode.caches() <==> (mode.error_mode() is ErrorCachedRoute || mode.error_mode() is ErrorRoute)),
        mode is BiTunnel ==> (mode.caches() <==> mode.error_mode() is ErrorCachedRoute),
        mode is NoRepTunnel ==> (mode.caches() <==> mode.error_mode() is ErrorCachedRoute),
        !(mode is Tunnel) && mode.inserts_error_route() ==> !mode.caches(),
{
}

/// The parts of a tunnel mode: its error handling mode and shadowing mode are
/// those it is made with (none without a tunnel), and error routes are
/// inserted exactly with the error route handling mode.
pub proof fn lemma_mode_parts(h: u8, sm: TunnelShadowMode, e: ErrorHandlingMode, same: bool)
    ensures
        TunnelMode::Tunnel(h, sm, e).error_mode() == e,
        TunnelMode::BiTunnel(h, sm, same, e).error_mode() == e,
        TunnelMode::NoRepTunnel(h, sm, e).error_mode() == e,
        TunnelMode::NoTunnel.error_mode() is NoHandling,
        TunnelMode::Tunnel(h, sm, e).shadow_mode() == sm,
        TunnelMode::BiTunnel(h, sm, same, e).shadow_mode() == sm,
        TunnelMode::NoRepTunnel(h, sm, e).shadow_mode() == sm,
        TunnelMode::NoTunnel.shadow_mode() == TunnelShadowMode::NoShadow,
        TunnelMode::Tunnel(h, sm, e).inserts_error_route() == e is ErrorRoute,
        TunnelMode::BiTunnel(h, sm, same, e).inserts_error_route() == e is ErrorRoute,
        TunnelMode::NoRepTunnel(h, sm, e).inserts_error_route() == e is ErrorRoute,
        !TunnelMode::NoTunnel.inserts_error_route(),
{
}

/// Symmetric keys go in the layers of the queries of single path tunnels and
/// of the replies of bidirectional tunnels, and in no other frame; only a
/// bidirectional tunnel includes a reply route, the query's route reversed or
/// another one as the mode says.
pub proof fn lemma_sym_keys_and_reply_routes(mode: TunnelMode, state: TunnelState)
    ensures
        mode is Tunnel ==> (writes_sym_keys(mode, state) <==> (state == TunnelState::QueryCached || state
            == TunnelState::QueryOnce)),
        mode is BiTunnel ==> (writes_sym_keys(mode, state) <==> state == TunnelState::ReplyOnce),
        (mode is NoTunnel || mode is NoRepTunnel) ==> !writes_sym_keys(mode, state),
        !(mode is BiTunnel) ==> reply_route_of(mode) == ReplyRoutePlan::NoRoute,
        mode matches TunnelMode::BiTunnel(_, _, same, _) ==> (reply_route_of(mode) == if same {
            ReplyRoutePlan::SameRoute
        } else {
            ReplyRoutePlan::OtherRoute
        }),
{
}

/// `a` is `b` up to the clone of a peer key.
pub open spec fn info_cloned<K: Clone>(a: ErrorHandlingInfo<K>, b: ErrorHandlingInfo<K>) -> bool {
    match (a, b) {
        (ErrorHandlingInfo::KnownDest(ka, ma), ErrorHandlingInfo::KnownDest(kb, mb)) => cloned(kb, ka)
            && ma == mb,
        _ => a == b,
    }
}

impl TunnelMode {
    /// The error handling info of each hop of `route` (pairs of error code and
    /// peer key, from the emitter to the destination): for a single path
    /// tunnel, or with cached routes, each hop gets its error code; with error
    /// routes each hop includes one; with a known destination only the
    /// destination gets the emitter's key (as a possible ack). The error route
    /// is not used yet.
    pub fn errhandling_infos<K: Clone>(&self, route: &[(usize, K)], error_route: Option<&[(usize, K)]>) -> (r: Vec<ErrorHandlingInfo<K>>)
        requires
            !(self is Tunnel) && self.error_mode() is KnownDest ==> route@.len() > 0,
        ensures
            r@.len() == route@.len(),
            forall|i: int|
                0 <= i < r@.len() ==> info_cloned(
                    #[trigger] r@[i],
                    errhandling_info_at(*self, route@[0].1, route@.map_values(|p: (usize, K)| p.0), i),
                ),
            *self is Tunnel ==> forall|i: int|
                0 <= i < r@.len() ==> #[trigger] r@[i] == ErrorHandlingInfo::<K>::ErrorCachedRoute(route@[i].0),
            self.error_mode() is ErrorCachedRoute && !(*self is NoTunnel) ==> forall|i: int|
                0 <= i < r@.len() ==> #[trigger] r@[i] == ErrorHandlingInfo::<K>::ErrorCachedRoute(route@[i].0),
            *self is NoTunnel ==> forall|i: int| 0 <= i < r@.len() ==> #[trigger] r@[i] is NoHandling,
            !(*self is Tunnel) && !(*self is NoTunnel) && self.error_mode() is ErrorRoute ==> forall|i: int|
                0 <= i < r@.len() ==> #[trigger] r@[i] is ErrorRoute,
    {
        let ghost codes = route@.map_values(|p: (usize, K)| p.0);
        let n = route.len();
        let need_cached_repkey = match self {
            TunnelMode::Tunnel(..) => true,
            _ => false,
        };
        let mut res: Vec<ErrorHandlingInfo<K>> = Vec::new();
        let mut i: usize = 0;
        while i < n
            invariant
                0 <= i <= n,
                n == route@.len(),
                res@.len() == i,
                codes == route@.map_values(|p: (usize, K)| p.0),
                need_cached_repkey == (*self is Tunnel),
                !(*self is Tunnel) && self.error_mode() is KnownDest ==> n > 0,
                forall|j: int|
                    0 <= j < i ==> info_cloned(
                        #[trigger] res@[j],
                        errhandling_info_at(*self, route@[0].1, codes, j),
                    ),
            decreases n - i,
        {
            let info = match self {
                TunnelMode::NoTunnel => ErrorHandlingInfo::NoHandling,
                TunnelMode::BiTunnel(_, _, _, b) | TunnelMode::NoRepTunnel(_, _, b) | TunnelMode::Tunnel(
                    _,
                    _,
                    b,
                ) => {
                    match b {
                        ErrorHandlingMode::NoHandling if !need_cached_repkey => ErrorHandlingInfo::NoHandling,
                        ErrorHandlingMode::KnownDest(ob) if !need_cached_repkey => {
                            if i == n - 1 {
                                let m = match ob {
                                    Some(b) => Some(clone_tunnel_mode(&**b)),
                                    None => None,
                                };
                                ErrorHandlingInfo::KnownDest(route[0].1.clone(), m)
                            } else {
                                ErrorHandlingInfo::NoHandling
                            }
                        },
                        ErrorHandlingMode::ErrorRoute if !need_cached_repkey => ErrorHandlingInfo::ErrorRoute,
                        _ => ErrorHandlingInfo::ErrorCachedRoute(route[i].0),
                    }
                },
            };
            res.push(info);
            i = i + 1;
        }
        res
    }
}

/// The reply route a tunnel writer includes.
#[derive(Debug, Clone, Copy, PartialEq, Eq, Structural)]
pub enum ReplyRoutePlan {
    /// no reply route
    NoRoute,
    /// the query's route
    SameRoute,
    /// the reply route given
    OtherRoute,
}

/// A shadow layer of a tunnel writer: the peer (index in the route) whose
/// shadower makes it, the peer its proxy forwards to (none for the last hop),
/// and which error handling info it gets (index in the infos of the route).
#[derive(Debug, Clone, Copy, PartialEq, Eq)]
pub struct LayerPlan {
    pub peer: usize,
    pub next: Option<usize>,
    pub error_info: usize,
}

/// An error route of a tunnel writer: a prefix of the query's route, or of
/// the error route given, of length `len`.
#[derive(Debug, Clone, Copy, PartialEq, Eq)]
pub struct ErrorRoutePlan {
    pub from_error_route: bool,
    pub len: usize,
}

/// What a tunnel writer over a route sets up.
#[derive(Debug)]
pub struct TunnelWriterPlan {
    /// whether the frame is an error report (layers are then made from the
    /// emitter on)
    pub reply: bool,
    /// whether each layer carries a new symmetric key for the reply
    pub with_sym_keys: bool,
    /// whether layers use the head shadow mode (else the content mode)
    pub head_layers: bool,
    /// the shadow layers, in the order they are made
    pub layers: Vec<LayerPlan>,
    /// the reply route included
    pub reply_route: ReplyRoutePlan,
    /// the error routes included, for hops 1, 2, ... of the route
    pub error_routes: Vec<ErrorRoutePlan>,
    /// the peer whose shadower shadows the content on its own, if any
    pub content_shadow: Option<usize>,
}

/// Whether a writer in `mode` and `state` makes a symmetric key per layer:
/// queries of a single path tunnel, replies of a two paths tunnel.
pub open spec fn writes_sym_keys(mode: TunnelMode, state: TunnelState) -> bool {
    match mode {
        TunnelMode::Tunnel(..) => state == TunnelState::QueryCached || state == TunnelState::QueryOnce,
        TunnelMode::BiTunnel(..) => state == TunnelState::ReplyOnce,
        _ => false,
    }
}

/// Layer `j` of a writer over `n` peers: made from the destination back to
/// the hop after the emitter, or, for an error report, from the emitter on;
/// each forwards to the peer of the layer made before it; layer `j` takes the
/// `j`-th error info counted from the last.
pub open spec fn layer_at(n: int, reply: bool, j: int) -> LayerPlan {
    LayerPlan {
        peer: (if reply {
            j
        } else {
            n - 1 - j
        }) as usize,
        next: if j == 0 {
            None
        } else {
            Some(
                (if reply {
                    j - 1
                } else {
                    n - j
                }) as usize,
            )
        },
        error_info: (n - 1 - j) as usize,
    }
}

/// The error route of hop `i`: the route up to hop `i`, or, with an error
/// route of `erlen` peers, its first `i` peers (at most all but its last).
pub open spec fn error_route_at(erlen: int, i: int) -> ErrorRoutePlan {
    if erlen == 0 {
        ErrorRoutePlan { from_error_route: false, len: i as usize }
    } else {
        ErrorRoutePlan {
            from_error_route: true,
            len: (if i > erlen - 1 {
                erlen - 1
            } else {
                i
            }) as usize,
        }
    }
}

/// The reply route of a writer in `mode`.
pub open spec fn reply_route_of(mode: TunnelMode) -> ReplyRoutePlan {
    match mode {
        TunnelMode::BiTunnel(_, _, sameroute, _) => if sameroute {
            ReplyRoutePlan::SameRoute
        } else {
            ReplyRoutePlan::OtherRoute
        },
        _ => ReplyRoutePlan::NoRoute,
    }
}

/// What a tunnel writer over a route of `nbpeer` peers (the emitter first) in
/// `mode` and `state` sets up, with an error route of `error_route_len` peers
/// (0 for none) and a reply route given or not.
pub fn tunnel_writer_plan(
    nbpeer: usize,
    mode: &TunnelMode,
    state: TunnelState,
    error_route_len: usize,
    has_reply_route: bool,
) -> (r: TunnelWriterPlan)
    requires
        nbpeer >= 1,
        *mode matches TunnelMode::BiTunnel(_, _, sameroute, _) && !sameroute ==> has_reply_route,
        mode.inserts_error_route() && state != TunnelState::QError && nbpeer > 2 && error_route_len > 0
            ==> error_route_len >= 2,
    ensures
        r.reply == (state == TunnelState::QError),
        r.with_sym_keys == writes_sym_keys(*mode, state),
        r.head_layers == (mode.shadow_mode() == TunnelShadowMode::Last),
        *mode is NoTunnel ==> r.layers@.len() == 0 && r.reply_route == ReplyRoutePlan::NoRoute,
        !(*mode is NoTunnel) ==> r.layers@.len() == nbpeer - 1 && r.reply_route == reply_route_of(*mode),
        forall|j: int| 0 <= j < r.layers@.len() ==> #[trigger] r.layers@[j] == layer_at(nbpeer as int, r.reply, j),
        r.layers@.len() > 0 ==> r.layers@[0].next is None,
        forall|j: int| 0 < j < r.layers@.len() ==> (#[trigger] r.layers@[j]).next == Some(r.layers@[j - 1].peer),
        r.reply ==> forall|j: int| 0 <= j < r.layers@.len() ==> (#[trigger] r.layers@[j]).peer == j,
        !r.reply ==> forall|j: int| 0 <= j < r.layers@.len() ==> (#[trigger] r.layers@[j]).peer == nbpeer - 1 - j,
        forall|j: int| 0 <= j < r.layers@.len() ==> (#[trigger] r.layers@[j]).error_info == nbpeer - 1 - j,
        r.error_routes@.len() == if !(*mode is NoTunnel) && !r.reply && mode.inserts_error_route() && nbpeer > 2 {
            nbpeer - 2
        } else {
            0
        },
        forall|k: int|
            0 <= k < r.error_routes@.len() ==> #[trigger] r.error_routes@[k] == error_route_at(
                error_route_len as int,
                k + 1,
            ),
        r.content_shadow == if !r.reply && mode.shadow_mode() == TunnelShadowMode::Last {
            Some((nbpeer - 1) as usize)
        } else {
            None::<usize>
        },
{
    let n = nbpeer;
    let reply = state == TunnelState::QError;
    let with_sym_keys = match mode {
        TunnelMode::Tunnel(..) => state == TunnelState::QueryCached || state == TunnelState::QueryOnce,
        TunnelMode::BiTunnel(..) => state == TunnelState::ReplyOnce,
        _ => false,
    };
    let head_layers = mode.is_het();
    let mut layers: Vec<LayerPlan> = Vec::new();
    let mut reply_route = ReplyRoutePlan::NoRoute;
    let mut error_routes: Vec<ErrorRoutePlan> = Vec::new();
    match mode {
        TunnelMode::NoTunnel => {},
        _ => {
            let mut j: usize = 0;
            while j < n - 1
                invariant
                    n >= 1,
                    j <= n - 1,
                    layers@.len() == j,
                    forall|k: int| 0 <= k < j ==> #[trigger] layers@[k] == layer_at(n as int, reply, k),
                decreases n - 1 - j,
            {
                let peer = if reply {
                    j
                } else {
                    n - 1 - j
                };
                let next = if j == 0 {
                    None
                } else if reply {
                    Some(j - 1)
                } else {
                    Some(n - j)
                };
                layers.push(LayerPlan { peer, next, error_info: n - 1 - j });
                j = j + 1;
            }
            reply_route = match mode {
                TunnelMode::BiTunnel(_, _, sameroute, _) => if *sameroute {
                    ReplyRoutePlan::SameRoute
                } else {
                    ReplyRoutePlan::OtherRoute
                },
                _ => ReplyRoutePlan::NoRoute,
            };
            if !reply && mode.insert_error_route() {
                let mut i: usize = 1;
                while i < n - 1
                    invariant
                        n >= 1,
                        1 <= i,
                        i <= n - 1 || n <= 2,
                        n <= 2 ==> i == 1,
                        error_routes@.len() == i - 1,
                        forall|k: int|
                            0 <= k < error_routes@.len() ==> #[trigger] error_routes@[k] == error_route_at(
                                error_route_len as int,
                                k + 1,
                            ),
                    decreases n - i,
                {
                    let er = if error_route_len == 0 {
                        ErrorRoutePlan { from_error_route: false, len: i }
                    } else {
                        let rlen = if i > error_route_len - 1 {
                            error_route_len - 1
                        } else {
                            i
                        };
                        ErrorRoutePlan { from_error_route: true, len: rlen }
                    };
                    error_routes.push(er);
                    i = i + 1;
                }
            }
        },
    }
    let content_shadow = if !reply && mode.is_het() {
        Some(n - 1)
    } else {
        None
    };
    TunnelWriterPlan { reply, with_sym_keys, head_layers, layers, reply_route, error_routes, content_shadow }
}

/// The layers of a writer that is not an error report are made by the peers
/// after the emitter, each once, from the destination back; each forwards to
/// the peer of the layer made before it (the destination to none), and takes
/// the error info of its own hop.
pub proof fn lemma_query_layers(n: usize, j: int)
    requires
        n >= 1,
        0 <= j < n - 1,
    ensures
        1 <= layer_at(n as int, false, j).peer < n,
        layer_at(n as int, false, j).error_info == layer_at(n as int, false, j).peer,
        j == 0 ==> layer_at(n as int, false, j).peer == n - 1 && layer_at(n as int, false, j).next is None,
        j > 0 ==> layer_at(n as int, false, j).next == Some(layer_at(n as int, false, j - 1).peer),
        j > 0 ==> layer_at(n as int, false, j).peer == layer_at(n as int, false, j - 1).peer - 1,
{
}

/// The layers of an error report are made by the peers from the emitter on,
/// each once; each forwards to the peer of the layer made before it (the
/// first to none), and takes the error info of the hop it is made for, from
/// the last back.
pub proof fn lemma_report_layers(n: usize, j: int)
    requires
        n >= 1,
        0 <= j < n - 1,
    ensures
        layer_at(n as int, true, j).peer == j,
        layer_at(n as int, true, j).error_info == n - 1 - j,
        j == 0 ==> layer_at(n as int, true, j).next is None,
        j > 0 ==> layer_at(n as int, true, j).next == Some(layer_at(n as int, true, j - 1).peer),
        j > 0 ==> layer_at(n as int, true, j).peer == layer_at(n as int, true, j - 1).peer + 1,
{
}

/// What a tunnel reader reads of a frame header after its state and mode.
#[derive(Debug, Clone, Copy, PartialEq, Eq, Structural)]
pub struct HeaderReadPlan {
    /// the cache id of the previous hop
    pub cache_id: bool,
    /// the layer with the proxy info of this hop (else this peer is the
    /// destination)
    pub proxy_info: bool,
    /// a symmetric key for the reply, in that layer
    pub reply_key: bool,
    /// the header of the content shadow, when this peer is the destination
    pub content_header_if_dest: bool,
}

/// Whether the mode follows the state in a header (a cached reply has only
/// the cache id after its state).
pub fn header_has_mode(state: TunnelState) -> (r: bool)
    ensures
        r == (state != TunnelState::ReplyCached),
{
    state != TunnelState::ReplyCached
}

/// What is read of a header after its `state` and `mode`.
pub fn header_read_plan(state: TunnelState, mode: &TunnelMode) -> (r: HeaderReadPlan)
    ensures
        r.cache_id == mode.caches(),
        r.proxy_info == !(*mode is NoTunnel),
        r.reply_key == (*mode is Tunnel && (state == TunnelState::QueryCached || state == TunnelState::QueryOnce)),
        r.content_header_if_dest == (!(*mode is NoTunnel) && mode.shadow_mode() == TunnelShadowMode::Last),
{
    let tunnel = match mode {
        TunnelMode::NoTunnel => false,
        _ => true,
    };
    let reply_key = match mode {
        TunnelMode::Tunnel(..) => state == TunnelState::QueryCached || state == TunnelState::QueryOnce,
        _ => false,
    };
    HeaderReadPlan {
        cache_id: mode.do_cache(),
        proxy_info: tunnel,
        reply_key,
        content_header_if_dest: tunnel && mode.is_het(),
    }
}

/// What a proxy forwards of a frame after its header: the cache id, then the
/// content; a separately shadowed payload (heterogeneous shadowing); and the
/// error destination and route it reads and drops (with error routes).
#[derive(Debug, Clone, Copy, PartialEq, Eq, Structural)]
pub struct ProxyPlan {
    pub cache_id: bool,
    pub payload: bool,
    pub error_route: bool,
}

/// What a proxy forwards of a frame in `mode`.
pub fn proxy_plan(mode: &TunnelMode) -> (r: ProxyPlan)
    ensures
        r.cache_id == mode.caches(),
        r.payload == (mode.shadow_mode() == TunnelShadowMode::Last),
        r.error_route == mode.inserts_error_route(),
{
    ProxyPlan { cache_id: mode.do_cache(), payload: mode.is_het(), error_route: mode.insert_error_route() }
}

/// Forwards one frame: `rd` reads it from `r` in reads of at most
/// `buf.len()` bytes until a read gives none, then ends the read; `wr` writes
/// its header, each chunk read, and its end into `w`. Reading goes on whatever
/// writing does, so that `r` ends right after the frame. `Err` when reading
/// fails; otherwise the last error of writing, if any.
fn proxy_frame<ER: BytesWR, EW: BytesWR>(
    buf: &mut [u8],
    rd: &mut ER,
    wr: &mut EW,
    r: &mut ByteSource,
    w: &mut Vec<u8>,
) -> (res: Result<Option<BwrError>, BwrError>)
    ensures
        final(buf)@.len() == old(buf)@.len(),
        rest_of(final(r)@, old(r)@),
        match read_frame(*old(rd), old(r)@, old(buf)@.len()) {
            None => res is Err,
            Some(t) => {
                &&& t.1 <= old(r)@.len()
                &&& final(r)@ == old(r)@.skip(t.1 as int)
                &&& res matches Ok(we) && (we is None <==> write_frame(*old(wr), t.0) is Some)
                &&& (write_frame(*old(wr), t.0) matches Some(bytes) ==> final(w)@ == old(w)@ + bytes)
            },
        },
{
    broadcast use {lemma_rest_of_self, lemma_rest_of_skip};
    let ghost rd0 = *rd;
    let ghost wr0 = *wr;
    let ghost in0 = r@;
    let ghost w0 = w@;
    let ghost room = buf@.len();
    let blen: usize = buf.len();
    let mut wok: bool = true;
    let mut werr: Option<BwrError> = None;
    match wr.start_write(w) {
        Ok(()) => {},
        Err(e) => {
            wok = false;
            werr = Some(e);
        },
    }
    let ghost mut chunks: Seq<Seq<u8>> = Seq::empty();
    loop
        invariant_except_break
            read_chunks(rd0, in0, room) == match read_chunks(*rd, r@, room) {
                Some(t) => Some((chunks + t.0, ((in0.len() - r@.len()) + t.1) as nat, t.2)),
                None => None,
            },
        invariant
            buf@.len() == room,
            room == old(buf)@.len(),
            room == blen,
            wok <==> werr is None,
            in0 == old(r)@,
            rd0 == *old(rd),
            wr0 == *old(wr),
            w0 == old(w)@,
            rest_of(r@, in0),
            wok ==> {
                &&& !wr0.start_write_fails()
                &&& write_chunks(wr0.after_start(), chunks) matches Some(t)
                &&& w@ == w0 + wr0.start_bytes() + t.0
                &&& *wr == t.1
            },
            !wok ==> wr0.start_write_fails() || write_chunks(wr0.after_start(), chunks) is None,
        ensures
            rest_of(r@, in0),
            read_chunks(rd0, in0, room) == Some((chunks, (in0.len() - r@.len()) as nat, *rd)),
            wok ==> {
                &&& !wr0.start_write_fails()
                &&& write_chunks(wr0.after_start(), chunks) matches Some(t)
                &&& w@ == w0 + wr0.start_bytes() + t.0
                &&& *wr == t.1
            },
            !wok ==> wr0.start_write_fails() || write_chunks(wr0.after_start(), chunks) is None,
        decreases r@.len(),
    {
        if !rd.can_read(r) {
            proof {
                assert(read_chunks(*rd, r@, room) is None);
            }
            return Err(BwrError::WindowOverflow);
        }
        let ghost rin = r@;
        let ghost rdi = *rd;
        let ghost bi = buf@;
        let rres = rd.b_read(r, buf);
        proof {
            lemma_rest_of_trans(in0, rin, r@);
        }
        let n = match rres {
            Err(e) => {
                proof {
                    assert(read_chunks(rdi, rin, room) is None);
                }
                return Err(e);
            },
            Ok(n) => n,
        };
        let ghost out = buf@.take(n as int);
        proof {
            let s = rdi.read_step(rin, room);
            match s.1 {
                Ok(o) => {
                    assert(buf@ == o + bi.skip(o.len() as int));
                    assert(o.len() <= bi.len());
                    assert(rres == Ok::<usize, BwrError>(o.len() as usize));
                    assert(n == o.len());
                    assert(out =~= o);
                },
                Err(_) => {},
            }
        }
        if n == 0 {
            proof {
                assert(read_chunks(rdi, rin, room) == Some(
                    (Seq::<Seq<u8>>::empty(), (rin.len() - r@.len()) as nat, *rd),
                ));
                assert(chunks + Seq::<Seq<u8>>::empty() =~= chunks);
            }
            break;
        }
        proof {
            assert(read_chunks(rdi, rin, room) == match read_chunks(*rd, r@, room) {
                Some(t) => Some((seq![out] + t.0, ((rin.len() - r@.len()) + t.1) as nat, t.2)),
                None => None,
            });
            let t = read_chunks(*rd, r@, room);
            assert(r@ == rin.skip((rin.len() - r@.len()) as int));
            if t is Some {
                assert(chunks.push(out) + t->Some_0.0 =~= chunks + (seq![out] + t->Some_0.0));
            }
        }
        let ghost prev = chunks;
        proof {
            chunks = chunks.push(out);
            assert(chunks.drop_last() =~= prev);
            assert(chunks.last() == out);
        }
        let part = vstd::slice::slice_subrange(buf, 0, n);
        proof {
            assert(part@ =~= out);
        }
        if wr.can_write(n) {
            match wr.b_write(w, part) {
                Ok(_) => {
                    proof {
                        if wok {
                            assert(w@ =~= w0 + wr0.start_bytes() + write_chunks(wr0.after_start(), chunks)->Some_0.0);
                        }
                    }
                },
                Err(e) => {
                    proof {
                        assert(wok ==> write_chunks(wr0.after_start(), chunks) is None);
                    }
                    wok = false;
                    werr = Some(e);
                },
            }
        } else {
            proof {
                assert(wok ==> write_chunks(wr0.after_start(), chunks) is None);
            }
            wok = false;
            werr = Some(BwrError::WindowOverflow);
        }
    }
    if !rd.can_end_read(r) {
        return Err(BwrError::UnexpectedEof);
    }
    let ghost rend = r@;
    let ended = rd.end_read(r);
    proof {
        lemma_rest_of_trans(in0, rend, r@);
        assert(in0.skip((in0.len() - rend.len()) as int) =~= rend);
        assert(r@ =~= in0.skip((in0.len() - r@.len()) as int));
    }
    match ended {
        Err(e) => {
            return Err(e);
        },
        Ok(()) => {},
    }
    match wr.end_write(w) {
        Ok(()) => {},
        Err(e) => {
            wok = false;
            werr = Some(e);
        },
    }
    Ok(werr)
}

/// Forwards a frame after its header: writes the header bytes `header` (the
/// state, mode and cache id as the proxy encodes them), then forwards the
/// content frame read by `content` and framed again by `eproxy`; with
/// heterogeneous shadowing, forwards the separately shadowed payload read and
/// written by `payload`; with an error route, drops the encoded key of the
/// error destination (`error_route`'s length, in bytes) and reads the header
/// of the error route frame and ends it, dropping it. Reading goes on whatever writing
/// does, so that `r` ends right after what was read; `Err` when a read fails,
/// or, once all is read, with the last error of writing when one failed.
pub fn proxy_content<ER: BytesWR, EW: BytesWR>(
    buf: &mut [u8],
    content: &mut ER,
    eproxy: EW,
    payload: Option<(ER, EW)>,
    error_route: Option<(usize, ER)>,
    header: &[u8],
    r: &mut ByteSource,
    w: &mut Vec<u8>,
) -> (res: Result<(), BwrError>)
    ensures
        rest_of(final(r)@, old(r)@),
        match proxy_reads(*old(content), payload, error_route, old(r)@, old(buf)@.len()) {
            None => res is Err,
            Some(t) => {
                let cw = write_frame(eproxy, t.0);
                let pw = match payload {
                    Some(p) => write_frame(p.1, t.1),
                    None => Some(Seq::<u8>::empty()),
                };
                &&& final(r)@ == old(r)@.skip(t.2 as int)
                &&& (res is Ok <==> cw is Some && pw is Some)
                &&& res is Ok ==> final(w)@ == old(w)@ + header@ + cw->Some_0 + pw->Some_0
            },
        },
{
    broadcast use {lemma_rest_of_self, lemma_rest_of_skip};
    let ghost in0 = r@;
    let ghost w0 = w@;
    let ghost room = buf@.len();
    let ghost payload0 = payload;
    let ghost eroute0 = error_route;
    push_bytes(w, header);
    let mut eproxy = eproxy;
    let ghost w1 = w@;
    let cerr = proxy_frame(buf, content, &mut eproxy, r, w)?;
    let ghost r1 = r@;
    let ghost w2 = w@;
    let mut perr: Option<BwrError> = None;
    match payload {
        Some((er, ew)) => {
            let ghost er0 = er;
            let mut er = er;
            let mut ew = ew;
            let pr = proxy_frame(buf, &mut er, &mut ew, r, w);
            proof {
                lemma_rest_of_trans(in0, r1, r@);
                if pr is Ok {
                    assert(r@ =~= r1.skip(read_frame(er0, r1, room)->Some_0.1 as int));
                }
            }
            match pr {
                Err(e) => {
                    return Err(e);
                },
                Ok(we) => {
                    perr = we;
                },
            }
        },
        None => {},
    }
    let ghost r2 = r@;
    proof {
        lemma_rest_of_trans(in0, r1, r2);
    }
    match error_route {
        Some((klen, err)) => {
            let mut err = err;
            let k = r.skip(klen);
            let ghost r4 = r@;
            let _ = err.start_read(r);
            let ghost r3 = r@;
            if err.can_end_read(r) {
                let _ = err.end_read(r);
            }
            proof {
                lemma_rest_of_trans(r4, r3, r@);
                assert(skipped_frame(eroute0->Some_0.1, r4) <= r4.len());
                assert(r@ =~= r4.skip(skipped_frame(eroute0->Some_0.1, r4) as int));
                assert(r@ =~= r2.skip(error_route_skip(eroute0->Some_0.0, eroute0->Some_0.1, r2) as int));
                lemma_rest_of_skip(r2, error_route_skip(eroute0->Some_0.0, eroute0->Some_0.1, r2) as int);
            }
        },
        None => {},
    }
    proof {
        lemma_rest_of_trans(in0, r2, r@);
        let ct = read_frame(*old(content), in0, room)->Some_0;
        assert(r1 =~= in0.skip(ct.1 as int));
        let pt: (Seq<Seq<u8>>, nat) = match payload0 {
            Some(pl) => read_frame(pl.0, r1, room)->Some_0,
            None => (Seq::empty(), 0nat),
        };
        assert(r2 =~= r1.skip(pt.1 as int));
        let e: nat = match eroute0 {
            Some(er) => error_route_skip(er.0, er.1, r2),
            None => 0nat,
        };
        assert(r@ =~= r2.skip(e as int));
        assert(r@ =~= in0.skip((ct.1 + pt.1 + e) as int));
    }
    match (cerr, perr) {
        (None, None) => {
            proof {
                assert(w@ =~= w0 + header@ + (w2.skip(w1.len() as int)) + w@.skip(w2.len() as int));
            }
            Ok(())
        },
        (_, Some(e)) => Err(e),
        (Some(e), None) => Err(e),
    }
}

/// Reads one frame with `rd` from `r` in reads of at most `buf.len()` bytes
/// until a read gives none, then ends the read, and writes the content read
/// as it is into `w`.
fn copy_frame<ER: BytesWR>(buf: &mut [u8], rd: &mut ER, r: &mut ByteSource, w: &mut Vec<u8>) -> (res: Result<(), BwrError>)
    ensures
        final(buf)@.len() == old(buf)@.len(),
        rest_of(final(r)@, old(r)@),
        match read_frame(*old(rd), old(r)@, old(buf)@.len()) {
            None => res is Err,
            Some(t) => {
                &&& res is Ok
                &&& final(r)@ == old(r)@.skip(t.1 as int)
                &&& final(w)@ == old(w)@ + concat_chunks(t.0)
            },
        },
{
    broadcast use {lemma_rest_of_self, lemma_rest_of_skip};
    let ghost rd0 = *rd;
    let ghost in0 = r@;
    let ghost w0 = w@;
    let ghost room = buf@.len();
    let blen: usize = buf.len();
    let ghost mut chunks: Seq<Seq<u8>> = Seq::empty();
    loop
        invariant_except_break
            read_chunks(rd0, in0, room) == match read_chunks(*rd, r@, room) {
                Some(t) => Some((chunks + t.0, ((in0.len() - r@.len()) + t.1) as nat, t.2)),
                None => None,
            },
        invariant
            buf@.len() == room,
            room == old(buf)@.len(),
            room == blen,
            in0 == old(r)@,
            rd0 == *old(rd),
            w0 == old(w)@,
            rest_of(r@, in0),
            w@ == w0 + concat_chunks(chunks),
        ensures
            rest_of(r@, in0),
            read_chunks(rd0, in0, room) == Some((chunks, (in0.len() - r@.len()) as nat, *rd)),
            w@ == w0 + concat_chunks(chunks),
        decreases r@.len(),
    {
        if !rd.can_read(r) {
            proof {
                assert(read_chunks(*rd, r@, room) is None);
            }
            return Err(BwrError::WindowOverflow);
        }
        let ghost rin = r@;
        let ghost rdi = *rd;
        let ghost bi = buf@;
        let rres = rd.b_read(r, buf);
        proof {
            lemma_rest_of_trans(in0, rin, r@);
        }
        let n = match rres {
            Err(e) => {
                proof {
                    assert(read_chunks(rdi, rin, room) is None);
                }
                return Err(e);
            },
            Ok(n) => n,
        };
        let ghost out = buf@.take(n as int);
        proof {
            let s = rdi.read_step(rin, room);
            match s.1 {
                Ok(o) => {
                    assert(buf@ == o + bi.skip(o.len() as int));
                    assert(o.len() <= bi.len());
                    assert(n == o.len());
                    assert(out =~= o);
                },
                Err(_) => {},
            }
        }
        if n == 0 {
            proof {
                assert(read_chunks(rdi, rin, room) == Some(
                    (Seq::<Seq<u8>>::empty(), (rin.len() - r@.len()) as nat, *rd),
                ));
                assert(chunks + Seq::<Seq<u8>>::empty() =~= chunks);
            }
            break;
        }
        proof {
            assert(read_chunks(rdi, rin, room) == match read_chunks(*rd, r@, room) {
                Some(t) => Some((seq![out] + t.0, ((rin.len() - r@.len()) + t.1) as nat, t.2)),
                None => None,
            });
            let t = read_chunks(*rd, r@, room);
            if t is Some {
                assert(chunks.push(out) + t->Some_0.0 =~= chunks + (seq![out] + t->Some_0.0));
            }
        }
        let ghost prev = chunks;
        proof {
            chunks = chunks.push(out);
            assert(chunks.drop_last() =~= prev);
        }
        let ghost wi = w@;
        let mut i: usize = 0;
        while i < n
            invariant
                i <= n,
                n <= buf@.len(),
                out == buf@.take(n as int),
                w@ =~= wi + out.take(i as int),
            decreases n - i,
        {
            w.push(buf[i]);
            i = i + 1;
        }
        proof {
            assert(out.take(n as int) =~= out);
        }
    }
    if !rd.can_end_read(r) {
        return Err(BwrError::UnexpectedEof);
    }
    let ghost rend = r@;
    let ended = rd.end_read(r);
    proof {
        lemma_rest_of_trans(in0, rend, r@);
        assert(in0.skip((in0.len() - rend.len()) as int) =~= rend);
        assert(r@ =~= in0.skip((in0.len() - r@.len()) as int));
    }
    ended
}

/// Reports an error on the route of `mode`, the header of the frame being
/// read (its proxying failed). Nothing is written when errors are not
/// propagated; otherwise `state_header` (the error frame state, as the caller
/// encodes it) comes first. On an error route, the error route frame read by
/// `err` follows, its content written as it is; on a cached error route, the
/// previous tunnel id and the error code as the caller encodes them
/// (`cached_ids`). Known destination error reporting is not supported on a
/// hop.
pub fn report_error<ER: BytesWR>(
    buf: &mut [u8],
    mode: &TunnelMode,
    err: ER,
    state_header: &[u8],
    cached_ids: &[u8],
    r: &mut ByteSource,
    w: &mut Vec<u8>,
) -> (res: Result<(), BwrError>)
    requires
        !(mode.error_mode() is KnownDest),
    ensures
        rest_of(final(r)@, old(r)@),
        match mode.error_mode() {
            ErrorHandlingMode::ErrorRoute => match read_frame(err, old(r)@, old(buf)@.len()) {
                None => res is Err,
                Some(t) => {
                    &&& res is Ok
                    &&& final(r)@ == old(r)@.skip(t.1 as int)
                    &&& final(w)@ == old(w)@ + state_header@ + concat_chunks(t.0)
                },
            },
            ErrorHandlingMode::ErrorCachedRoute => {
                &&& res is Ok
                &&& final(r)@ == old(r)@
                &&& final(w)@ == old(w)@ + state_header@ + cached_ids@
            },
            _ => res is Ok && final(r)@ == old(r)@ && final(w)@ == old(w)@,
        },
{
    broadcast use {lemma_rest_of_self, lemma_rest_of_skip};
    let state = mode.report_error_state();
    match state {
        None => {
            return Ok(());
        },
        Some(_) => {},
    }
    push_bytes(w, state_header);
    if state == Some(TunnelState::QError) {
        let mut err = err;
        copy_frame(buf, &mut err, r, w)
    } else {
        push_bytes(w, cached_ids);
        Ok(())
    }
}

/// Writes `bytes` after what `w` holds.
fn push_bytes(w: &mut Vec<u8>, bytes: &[u8])
    ensures
        final(w)@ == old(w)@ + bytes@,
{
    let ghost w0 = w@;
    let mut i: usize = 0;
    while i < bytes.len()
        invariant
            i <= bytes@.len(),
            w@ =~= w0 + bytes@.take(i as int),
        decreases bytes.len() - i,
    {
        w.push(bytes[i]);
        i = i + 1;
    }
    proof {
        assert(bytes@.take(bytes@.len() as int) =~= bytes@);
    }
}

/// How many bytes of `input` dropping the error route takes: the encoded key
/// of the error destination (`klen` bytes, fewer at the end), then the header
/// of the error route frame read by `er` and its end.
pub open spec fn error_route_skip<ER: BytesWR>(klen: usize, er: ER, input: Seq<u8>) -> nat {
    let k = min_nat(klen as int, input.len() as int) as nat;
    k + skipped_frame(er, input.skip(k as int))
}

/// What a proxy reads of a frame after its header, in reads of at most
/// `room` bytes: the content frame read by `content`, the payload frame read
/// by the reader of `payload` if any, and the start and end of the error route
/// frame if any. The chunks of content, the chunks of payload, and how many
/// bytes of `input` are consumed; `None` when a read fails.
pub open spec fn proxy_reads<ER: BytesWR, EW: BytesWR>(
    content: ER,
    payload: Option<(ER, EW)>,
    error_route: Option<(usize, ER)>,
    input: Seq<u8>,
    room: nat,
) -> Option<(Seq<Seq<u8>>, Seq<Seq<u8>>, nat)> {
    match read_frame(content, input, room) {
        None => None,
        Some(c) => {
            let in1 = input.skip(c.1 as int);
            let p: Option<(Seq<Seq<u8>>, nat)> = match payload {
                Some(pl) => read_frame(pl.0, in1, room),
                None => Some((Seq::empty(), 0nat)),
            };
            match p {
                None => None,
                Some(pt) => {
                    let in2 = in1.skip(pt.1 as int);
                    let e: nat = match error_route {
                        Some(er) => error_route_skip(er.0, er.1, in2),
                        None => 0nat,
                    };
                    Some((c.0, pt.0, c.1 + pt.1 + e))
                },
            }
        },
    }
}

/// What a writer puts in a header, a reader of the same state and mode
/// expects: the cache id; a proxy info layer for each hop of a tunnel; a
/// reply key in the layers of single path tunnel queries; and, for a query,
/// a content shadow header for the destination with heterogeneous shadowing.
pub proof fn lemma_reader_reads_what_writer_writes(
    nbpeer: usize,
    mode: TunnelMode,
    state: TunnelState,
    w: TunnelWriterPlan,
    r: HeaderReadPlan,
)
    requires
        nbpeer >= 2,
        state != TunnelState::QError,
        w.reply == (state == TunnelState::QError),
        w.with_sym_keys == writes_sym_keys(mode, state),
        mode is NoTunnel ==> w.layers@.len() == 0,
        !(mode is NoTunnel) ==> w.layers@.len() == nbpeer - 1,
        w.content_shadow == if !w.reply && mode.shadow_mode() == TunnelShadowMode::Last {
            Some((nbpeer - 1) as usize)
        } else {
            None::<usize>
        },
        r.proxy_info == !(mode is NoTunnel),
        r.reply_key == (mode is Tunnel && (state == TunnelState::QueryCached || state == TunnelState::QueryOnce)),
        r.content_header_if_dest == (!(mode is NoTunnel) && mode.shadow_mode() == TunnelShadowMode::Last),
    ensures
        r.proxy_info <==> w.layers@.len() > 0,
        mode is Tunnel ==> (r.reply_key <==> w.with_sym_keys),
        r.content_header_if_dest <==> w.content_shadow is Some,
{
}

/// Where content goes through, for a tunnel writer or reader.
#[derive(Debug, Clone, Copy, PartialEq, Eq, Structural)]
pub enum ContentPath {
    /// as it is (no tunnel)
    Direct,
    /// the content shadow of the destination (heterogeneous shadowing)
    ContentShadow,
    /// the layers of the route
    Layers,
}

/// Where a writer in `mode` writes content: as it is without a tunnel; into
/// the destination's content shadow when it has one; into the layers
/// otherwise.
pub fn content_write(mode: &TunnelMode, has_content_shadow: bool) -> (r: ContentPath)
    ensures
        r == if *mode is NoTunnel {
            ContentPath::Direct
        } else if has_content_shadow {
            ContentPath::ContentShadow
        } else {
            ContentPath::Layers
        },
{
    match mode {
        TunnelMode::NoTunnel => ContentPath::Direct,
        _ => if has_content_shadow {
            ContentPath::ContentShadow
        } else {
            ContentPath::Layers
        },
    }
}

/// Whether ending a frame in `mode` writes the reply route after it (header,
/// symmetric keys and end): for two paths tunnels that have one.
pub fn ends_with_reply_route(mode: &TunnelMode, has_reply_route: bool) -> (r: bool)
    ensures
        r == (*mode is BiTunnel && has_reply_route),
{
    match mode {
        TunnelMode::BiTunnel(..) => has_reply_route,
        _ => false,
    }
}

/// The symmetric keys written as content for a reply: the key of each layer,
/// or nothing for a layer without one.
pub fn simkeys_to_write(keys: &Vec<Option<Vec<u8>>>) -> (r: Vec<Vec<u8>>)
    ensures
        r@.len() == keys@.len(),
        forall|i: int|
            0 <= i < keys@.len() ==> (#[trigger] r@[i])@ == match keys@[i] {
                Some(k) => k@,
                None => Seq::<u8>::empty(),
            },
{
    let mut r: Vec<Vec<u8>> = Vec::new();
    let mut i: usize = 0;
    while i < keys.len()
        invariant
            i <= keys@.len(),
            r@.len() == i,
            forall|j: int|
                0 <= j < i ==> (#[trigger] r@[j])@ == match keys@[j] {
                    Some(k) => k@,
                    None => Seq::<u8>::empty(),
                },
        decreases keys@.len() - i,
    {
        let k = match &keys[i] {
            Some(k) => k.clone(),
            None => Vec::new(),
        };
        r.push(k);
        i = i + 1;
    }
    r
}

/// What a tunnel reader knows of the frame it reads (the shadow readers of
/// its layers are the caller's): the mode and state of the frame, the cache id
/// of the previous hop, the proxy info of this hop once read (`A` the type of
/// peer addresses, `K` of peer keys), and the key for a reply.
pub struct TunnelReaderExt<A, K> {
    pub proxy_info: Option<TunnelProxyInfo<A, K>>,
    pub mode: TunnelMode,
    pub state: TunnelState,
    pub previous_cacheid: Vec<u8>,
    pub rep_key: Option<Vec<u8>>,
}

impl<A, K> TunnelReaderExt<A, K> {
    /// A reader of frames whose mode and state may already be known (no
    /// tunnel and a query by default), nothing read yet.
    pub fn new(mode: Option<TunnelMode>, state: Option<TunnelState>) -> (r: Self)
        ensures
            r.mode == match mode {
                Some(m) => m,
                None => TunnelMode::NoTunnel,
            },
            r.state == match state {
                Some(s) => s,
                None => TunnelState::QueryOnce,
            },
            r.proxy_info is None,
            r.previous_cacheid@.len() == 0,
            r.rep_key is None,
    {
        let m = match mode {
            Some(m) => m,
            None => TunnelMode::NoTunnel,
        };
        let s = match state {
            Some(s) => s,
            None => TunnelState::QueryOnce,
        };
        TunnelReaderExt { proxy_info: None, mode: m, state: s, previous_cacheid: Vec::new(), rep_key: None }
    }

    /// Whether this peer is the destination (no next peer), once the proxy
    /// info is read.
    pub fn is_dest(&self) -> (r: Option<bool>)
        ensures
            r == match self.proxy_info {
                Some(tpi) => Some(tpi.next_proxy_peer is None),
                None => None::<bool>,
            },
    {
        match &self.proxy_info {
            Some(tpi) => Some(tpi.next_proxy_peer.is_none()),
            None => None,
        }
    }

    /// The cache id of the previous hop.
    pub fn previous_tunnelid(&self) -> (r: &[u8])
        ensures
            r@ == self.previous_cacheid@,
    {
        self.previous_cacheid.as_slice()
    }

    /// The error code of this hop, 0 when there is none.
    pub fn error_code(&self) -> (r: usize)
        ensures
            r == match self.proxy_info {
                Some(tpi) => match tpi.error_handle {
                    ErrorHandlingInfo::ErrorCachedRoute(ec) => ec,
                    _ => 0usize,
                },
                None => 0usize,
            },
    {
        match &self.proxy_info {
            Some(tpi) => tpi.error_handle.get_error_code(),
            None => 0,
        }
    }

    /// Where the content of the frame is read from: as it is without a
    /// tunnel; by the destination's content shadow with heterogeneous
    /// shadowing at the destination; through the layers otherwise.
    pub fn content_read(&self) -> (r: ContentPath)
        ensures
            r == if self.mode is NoTunnel {
                ContentPath::Direct
            } else if self.mode.shadow_mode() == TunnelShadowMode::Last && (self.proxy_info matches Some(
                tpi,
            ) && tpi.next_proxy_peer is None) {
                ContentPath::ContentShadow
            } else {
                ContentPath::Layers
            },
    {
        match self.mode {
            TunnelMode::NoTunnel => ContentPath::Direct,
            _ => {
                if self.mode.is_het() && self.is_dest() == Some(true) {
                    ContentPath::ContentShadow
                } else {
                    ContentPath::Layers
                }
            },
        }
    }

    /// Takes in what was read of a header: its `state`; for a cached reply
    /// only the cache id follows; otherwise its `mode`, the cache id when the
    /// mode sends one, the proxy info of this hop when in a tunnel (without a
    /// tunnel this peer is the destination), and the reply key, which comes
    /// exactly with queries of single path tunnels.
    pub fn header_read(
        &mut self,
        state: TunnelState,
        mode: TunnelMode,
        cacheid: Option<Vec<u8>>,
        proxy_info: Option<TunnelProxyInfo<A, K>>,
        rep_key: Option<Vec<u8>>,
    )
        requires
            state == TunnelState::ReplyCached || mode.caches() ==> cacheid is Some,
            state != TunnelState::ReplyCached && !(mode is NoTunnel) ==> proxy_info is Some,
            state != TunnelState::ReplyCached ==> (rep_key is Some <==> (mode is Tunnel && (state
                == TunnelState::QueryCached || state == TunnelState::QueryOnce))),
        ensures
            state == TunnelState::ReplyCached ==> {
                &&& final(self).state == state
                &&& final(self).previous_cacheid@ == cacheid.unwrap()@
                &&& final(self).mode == old(self).mode
                &&& final(self).proxy_info == old(self).proxy_info
                &&& final(self).rep_key == old(self).rep_key
            },
            state != TunnelState::ReplyCached ==> {
                &&& final(self).state == state
                &&& final(self).mode == mode
                &&& final(self).rep_key == rep_key
                &&& final(self).previous_cacheid@ == if mode.caches() {
                    cacheid.unwrap()@
                } else {
                    old(self).previous_cacheid@
                }
                &&& final(self).proxy_info == if mode is NoTunnel {
                    Some(
                        TunnelProxyInfo {
                            next_proxy_peer: None,
                            tunnel_id: 0,
                            tunnel_id_failure: None,
                            error_handle: ErrorHandlingInfo::NoHandling,
                        },
                    )
                } else {
                    proxy_info
                }
            },
    {
        if state == TunnelState::ReplyCached {
            self.state = state;
            match cacheid {
                Some(c) => self.previous_cacheid = c,
                None => {},
            }
            return;
        }
        if mode.do_cache() {
            match cacheid {
                Some(c) => self.previous_cacheid = c,
                None => {},
            }
        }
        let tunnel = match mode {
            TunnelMode::NoTunnel => false,
            _ => true,
        };
        if tunnel {
            self.proxy_info = proxy_info;
        } else {
            self.proxy_info = Some(
                TunnelProxyInfo {
                    next_proxy_peer: None,
                    tunnel_id: 0,
                    tunnel_id_failure: None,
                    error_handle: ErrorHandlingInfo::NoHandling,
                },
            );
        }
        self.mode = mode;
        self.state = state;
        self.rep_key = rep_key;
    }
}

/// Errors of tunnel handling.
pub enum TunnelError {
    /// a reported error code matches no peer of the route
    WrongXorErrorCode,
    /// the tunnel keeps no cache of established tunnels
    NoCache,
    /// a frame read in a state that has no reader
    InvalidReaderState,
}

impl TunnelError {
    /// A description of the error.
    pub fn message(&self) -> (s: &'static str)
        ensures
            s@ == match self {
                TunnelError::WrongXorErrorCode => "Wrong xor error code identifier"@,
                TunnelError::NoCache => "No tunnel cache"@,
                TunnelError::InvalidReaderState => "invalid reader state"@,
            },
    {
        match self {
            TunnelError::WrongXorErrorCode => "Wrong xor error code identifier",
            TunnelError::NoCache => "No tunnel cache",
            TunnelError::InvalidReaderState => "invalid reader state",
        }
    }
}

/// Combines two error codes.
pub fn xor_err_code(c1: usize, c2: usize) -> (r: usize)
    ensures
        r == c1 ^ c2,
{
    c1 ^ c2
}

/// The received code xored with the codes of hops 1 to `i`, in order.
pub open spec fn received_xor(e: usize, codes: Seq<usize>, i: int) -> usize
    decreases i,
{
    if i <= 0 {
        e
    } else {
        received_xor(e, codes, i - 1) ^ codes[i]
    }
}

/// Proxies an error on a cached route: reads the received error code (eight
/// bytes, big endian, as error codes are encoded in frames) from `r`, then
/// writes `state_header` (the cached error state as the caller encodes it),
/// the cache id `from_cached_id` as the caller encodes it, and the received
/// code xored with this hop's code `cached_errcode` (eight bytes, big
/// endian). Fails, writing nothing, when `r` holds no code.
pub fn proxy_cached_err(
    r: &mut ByteSource,
    w: &mut Vec<u8>,
    state_header: &[u8],
    from_cached_id: &[u8],
    cached_errcode: u64,
) -> (res: Result<(), BwrError>)
    ensures
        old(r)@.len() < 8 ==> res is Err && final(w)@ == old(w)@,
        old(r)@.len() >= 8 ==> {
            &&& res is Ok
            &&& final(r)@ == old(r)@.skip(8)
            &&& final(w)@ == old(w)@ + state_header@ + from_cached_id@ + be_bytes(
                be_value(old(r)@.take(8)) ^ cached_errcode,
            )
        },
{
    let err_code = read_u64_be_from(r)?;
    push_bytes(w, state_header);
    push_bytes(w, from_cached_id);
    write_u64_be(w, err_code ^ cached_errcode);
    Ok(())
}

/// Index of the peer that reported an error: xors the received code `err_code`
/// with the error codes of `route` (pairs of error code and peer), in order
/// from its second hop, until the result is 0.
pub fn identify_cached_errcode<K>(err_code: usize, route: &[(usize, K)]) -> (r: Result<usize, TunnelError>)
    ensures
        ({
            let codes = route@.map_values(|p: (usize, K)| p.0);
            match r {
                Ok(i) => {
                    &&& 1 <= i < codes.len()
                    &&& received_xor(err_code, codes, i as int) == 0
                    &&& forall|j: int| 1 <= j < i ==> received_xor(err_code, codes, j) != 0
                },
                Err(_) => forall|j: int| 1 <= j < codes.len() ==> received_xor(err_code, codes, j) != 0,
            }
        }),
{
    let ghost codes = route@.map_values(|p: (usize, K)| p.0);
    let mut e = err_code;
    let mut i: usize = 1;
    while i < route.len()
        invariant
            1 <= i,
            i <= route@.len() || route@.len() == 0,
            codes == route@.map_values(|p: (usize, K)| p.0),
            e == received_xor(err_code, codes, i - 1),
            forall|j: int| 1 <= j < i ==> received_xor(err_code, codes, j) != 0,
        decreases route@.len() - i,
    {
        e = xor_err_code(e, route[i].0);
        if e == 0 {
            return Ok(i);
        }
        i = i + 1;
    }
    Err(TunnelError::WrongXorErrorCode)
}


/// Xor of the error codes of hops `a + 1` to `k`.
pub open spec fn xor_range(codes: Seq<usize>, a: int, k: int) -> usize
    decreases k - a,
{
    if k <= a {
        0
    } else {
        xor_range(codes, a, k - 1) ^ codes[k]
    }
}

/// The code that hop `j` sends back when hop `k` reports an error: hop `k`
/// sends its own code, every proxy from `k - 1` down to `j` xors the code it
/// receives with its own.
pub open spec fn proxied_code(codes: Seq<usize>, k: int, j: int) -> usize
    decreases k - j,
{
    if j >= k {
        codes[k]
    } else {
        proxied_code(codes, k, j + 1) ^ codes[j]
    }
}

proof fn lemma_xor_facts(a: usize, b: usize, c: usize)
    ensures
        (a ^ b) ^ c == a ^ (b ^ c),
        a ^ b == b ^ a,
        a ^ a == 0,
        a ^ 0 == a,
        0 ^ a == a,
{
    assert((a ^ b) ^ c == a ^ (b ^ c)) by (bit_vector);
    assert(a ^ b == b ^ a) by (bit_vector);
    assert(a ^ a == 0) by (bit_vector);
    assert(a ^ 0 == a) by (bit_vector);
    assert(0 ^ a == a) by (bit_vector);
}

proof fn lemma_xor_range_front(codes: Seq<usize>, a: int, k: int)
    requires
        a < k,
    ensures
        xor_range(codes, a, k) == codes[a + 1] ^ xor_range(codes, a + 1, k),
    decreases k - a,
{
    if k == a + 1 {
        assert(xor_range(codes, a, a) == 0);
        assert(xor_range(codes, a + 1, k) == 0);
        lemma_xor_facts(codes[a + 1], 0, 0);
    } else {
        lemma_xor_range_front(codes, a, k - 1);
        lemma_xor_facts(codes[a + 1], xor_range(codes, a + 1, k - 1), codes[k]);
    }
}

proof fn lemma_proxied_code(codes: Seq<usize>, k: int, j: int)
    requires
        1 <= j <= k,
    ensures
        proxied_code(codes, k, j) == xor_range(codes, j - 1, k),
    decreases k - j,
{
    if j == k {
        assert(xor_range(codes, k - 1, k - 1) == 0);
        lemma_xor_facts(codes[k], 0, 0);
    } else {
        lemma_proxied_code(codes, k, j + 1);
        lemma_xor_range_front(codes, j - 1, k);
        lemma_xor_facts(codes[j], xor_range(codes, j, k), 0);
    }
}

proof fn lemma_xor_range_split(codes: Seq<usize>, i: int, k: int)
    requires
        0 <= i <= k,
    ensures
        xor_range(codes, 0, k) == xor_range(codes, 0, i) ^ xor_range(codes, i, k),
    decreases k - i,
{
    if k == i {
        lemma_xor_facts(xor_range(codes, 0, k), 0, 0);
    } else {
        lemma_xor_range_split(codes, i, k - 1);
        lemma_xor_facts(xor_range(codes, 0, i), xor_range(codes, i, k - 1), codes[k]);
    }
}

proof fn lemma_received_xor(e: usize, codes: Seq<usize>, i: int)
    requires
        i >= 0,
    ensures
        received_xor(e, codes, i) == e ^ xor_range(codes, 0, i),
    decreases i,
{
    if i == 0 {
        lemma_xor_facts(e, 0, 0);
    } else {
        lemma_received_xor(e, codes, i - 1);
        lemma_xor_facts(e, xor_range(codes, 0, i - 1), codes[i]);
    }
}

/// When hop `k` of a route reports an error and every proxy back to the
/// emitter xors the code with its own, the emitter's xoring of the received
/// code with the route's codes in order first reaches 0 at hop `k`, as long as
/// no shorter tail of the codes up to `k` xors to 0 (a collision, which route
/// construction may avoid); `identify_cached_errcode` then returns `k`.
pub proof fn lemma_error_code_identifies_reporter(codes: Seq<usize>, k: int)
    requires
        1 <= k < codes.len(),
        forall|i: int| 1 <= i < k ==> xor_range(codes, i, k) != 0,
    ensures
        received_xor(proxied_code(codes, k, 1), codes, k) == 0,
        forall|i: int| 1 <= i < k ==> received_xor(proxied_code(codes, k, 1), codes, i) != 0,
{
    let e = proxied_code(codes, k, 1);
    lemma_proxied_code(codes, k, 1);
    assert forall|i: int| 1 <= i <= k implies received_xor(e, codes, i) == xor_range(codes, i, k) by {
        lemma_received_xor(e, codes, i);
        lemma_xor_range_split(codes, i, k);
        let a = xor_range(codes, 0, i);
        let b = xor_range(codes, i, k);
        lemma_xor_facts(a, b, a);
        lemma_xor_facts(b, a, a);
        lemma_xor_facts(a, b, 0);
        lemma_xor_facts(b, 0, 0);
    }
    assert(xor_range(codes, k, k) == 0);
}
} // verus!
