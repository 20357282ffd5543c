//! Decisions of the full tunnel: the state of the frames it writes, how it
//! layers the shadows of a route, where the reply payload goes, and which
//! destination readers and proxy writers it makes for each frame state.
use vstd::prelude::*;
use crate::tunnel::{TunnelError, TunnelState};
use super::info::multi::MultipleReplyMode;
use super::{ErrorProvider, RepInfo, ReplyProvider, RouteProvider, SymProvider};

verus! {

/// The state of the frames a full tunnel writes in reply mode `mode`: a
/// cached query with cached routes, a query otherwise; a reply for the writer
/// of a reply payload.
pub fn get_write_state(mode: MultipleReplyMode, reply_payload: bool) -> (r: TunnelState)
    ensures
        r == if reply_payload {
            TunnelState::ReplyOnce
        } else if mode == MultipleReplyMode::CachedRoute {
            TunnelState::QueryCached
        } else {
            TunnelState::QueryOnce
        },
{
    if reply_payload {
        TunnelState::ReplyOnce
    } else {
        match mode {
            MultipleReplyMode::CachedRoute => TunnelState::QueryCached,
            _ => TunnelState::QueryOnce,
        }
    }
}

/// A shadow layer of a full tunnel writer: the peer (index in the route)
/// whose shadower makes it, the peer its proxy forwards to (none for the
/// first layer), and which reply and error infos it takes (indices in the
/// lists the providers gave).
#[derive(Debug, Clone, Copy, PartialEq, Eq)]
pub struct FullLayerPlan {
    pub peer: usize,
    pub next: Option<usize>,
    pub reply_info: usize,
    pub error_info: usize,
}

/// Layer `j` of a full writer over `n` peers with `nrep` reply infos and
/// `nerr` error infos: layers are made from the last peer (the destination)
/// back to the second (the emitter, first in the route, gets none), each
/// forwarding to the peer of the layer made before it, each taking the last
/// infos not taken yet.
pub open spec fn full_layer_at(n: int, nrep: int, nerr: int, j: int) -> FullLayerPlan {
    FullLayerPlan {
        peer: (n - 1 - j) as usize,
        next: if j == 0 {
            None
        } else {
            Some((n - j) as usize)
        },
        reply_info: (nrep - 1 - j) as usize,
        error_info: (nerr - 1 - j) as usize,
    }
}

/// The layers of a full writer over a route of `nbpeer` peers, with `nrep`
/// reply infos and `nerr` error infos.
pub fn full_layers(nbpeer: usize, nrep: usize, nerr: usize) -> (r: Vec<FullLayerPlan>)
    requires
        nbpeer >= 2,
        nrep >= nbpeer - 1,
        nerr >= nbpeer - 1,
    ensures
        r@.len() == nbpeer - 1,
        forall|j: int| 0 <= j < r@.len() ==> #[trigger] r@[j] == full_layer_at(nbpeer as int, nrep as int, nerr as int, j),
{
    let mut r: Vec<FullLayerPlan> = Vec::new();
    let mut j: usize = 0;
    while j < nbpeer - 1
        invariant
            nbpeer >= 2,
            nrep >= nbpeer - 1,
            nerr >= nbpeer - 1,
            j <= nbpeer - 1,
            r@.len() == j,
            forall|k: int| 0 <= k < j ==> #[trigger] r@[k] == full_layer_at(nbpeer as int, nrep as int, nerr as int, k),
        decreases nbpeer - 1 - j,
    {
        let next = if j == 0 {
            None
        } else {
            Some(nbpeer - j)
        };
        r.push(FullLayerPlan { peer: nbpeer - 1 - j, next, reply_info: nrep - 1 - j, error_info: nerr - 1 - j });
        j = j + 1;
    }
    r
}

/// Each layer of a full writer forwards to the peer of the layer made before
/// it, and the layers are made by distinct peers, from the destination down
/// to the second peer of the route: the emitter makes none. The first layer
/// takes the last reply and error infos, each next one the infos before.
pub proof fn lemma_full_layers_chain(n: usize, nrep: usize, nerr: usize, j: int)
    requires
        n >= 2,
        nrep >= n - 1,
        nerr >= n - 1,
        0 < j < n - 1,
    ensures
        full_layer_at(n as int, nrep as int, nerr as int, j).next == Some(
            full_layer_at(n as int, nrep as int, nerr as int, j - 1).peer,
        ),
        full_layer_at(n as int, nrep as int, nerr as int, j).peer + 1 == full_layer_at(
            n as int,
            nrep as int,
            nerr as int,
            j - 1,
        ).peer,
        full_layer_at(n as int, nrep as int, nerr as int, 0).next is None,
        full_layer_at(n as int, nrep as int, nerr as int, 0).peer == n - 1,
        full_layer_at(n as int, nrep as int, nerr as int, 0).reply_info == nrep - 1,
        full_layer_at(n as int, nrep as int, nerr as int, 0).error_info == nerr - 1,
        full_layer_at(n as int, nrep as int, nerr as int, j).reply_info + 1 == full_layer_at(
            n as int,
            nrep as int,
            nerr as int,
            j - 1,
        ).reply_info,
        full_layer_at(n as int, nrep as int, nerr as int, j).error_info + 1 == full_layer_at(
            n as int,
            nrep as int,
            nerr as int,
            j - 1,
        ).error_info,
        full_layer_at(n as int, nrep as int, nerr as int, j).peer >= 1,
{
}

/// The route of the writer of the reply payload.
#[derive(Debug, Clone, Copy, PartialEq, Eq, Structural)]
pub enum ReplyPayloadRoute {
    /// no reply payload
    NoPayload,
    /// the reply route of the route provider
    ReplyRoute,
    /// the query's route reversed
    Reversed,
}

/// Where the reply payload goes when a writer is made for a destination:
/// when the destination's reply info asks for a payload, on the provider's
/// reply route with a different reply route, on the query's route reversed
/// otherwise.
pub fn next_shads_reply_payload(requires_payload: bool, other_route: bool) -> (r: ReplyPayloadRoute)
    ensures
        r == if !requires_payload {
            ReplyPayloadRoute::NoPayload
        } else if other_route {
            ReplyPayloadRoute::ReplyRoute
        } else {
            ReplyPayloadRoute::Reversed
        },
{
    if !requires_payload {
        ReplyPayloadRoute::NoPayload
    } else if other_route {
        ReplyPayloadRoute::ReplyRoute
    } else {
        ReplyPayloadRoute::Reversed
    }
}

/// Where the reply payload goes when a writer is made for a given route, as
/// for a writer made for a destination: when the destination's reply info asks
/// for a payload, on the provider's reply route with a different reply route,
/// on the query's route reversed otherwise.
pub fn make_shads_reply_payload(requires_payload: bool, other_route: bool) -> (r: ReplyPayloadRoute)
    ensures
        r == if !requires_payload {
            ReplyPayloadRoute::NoPayload
        } else if other_route {
            ReplyPayloadRoute::ReplyRoute
        } else {
            ReplyPayloadRoute::Reversed
        },
{
    if !requires_payload {
        ReplyPayloadRoute::NoPayload
    } else if other_route {
        ReplyPayloadRoute::ReplyRoute
    } else {
        ReplyPayloadRoute::Reversed
    }
}

/// A shadow layer of a full tunnel writer with the reply and error infos it
/// takes.
pub struct FullLayer<RI, EI> {
    pub plan: FullLayerPlan,
    pub rep: RI,
    pub err: EI,
}

/// The layers of a full writer over a route of `nbpeer` peers, each taking
/// the reply and error infos its plan names among `replies` and `errors` (the
/// last ones first); none when fewer than `nbpeer - 1` of either are given.
pub fn full_layers_with_infos<RI, EI>(nbpeer: usize, replies: Vec<RI>, errors: Vec<EI>) -> (r: Option<
    Vec<FullLayer<RI, EI>>,
>)
    requires
        nbpeer >= 2,
    ensures
        r is Some <==> replies@.len() >= nbpeer - 1 && errors@.len() >= nbpeer - 1,
        r matches Some(v) ==> v@ == layers_with_infos(nbpeer as int, replies@, errors@),
        r matches Some(v) ==> {
            &&& v@.len() == nbpeer - 1
            &&& forall|j: int|
                0 <= j < v@.len() ==> {
                    let p = full_layer_at(nbpeer as int, replies@.len() as int, errors@.len() as int, j);
                    &&& (#[trigger] v@[j]).plan == p
                    &&& v@[j].rep == replies@[p.reply_info as int]
                    &&& v@[j].err == errors@[p.error_info as int]
                }
        },
{
    let nrep = replies.len();
    let nerr = errors.len();
    if nrep < nbpeer - 1 || nerr < nbpeer - 1 {
        return None;
    }
    let plans = full_layers(nbpeer, nrep, nerr);
    let ghost rep0 = replies@;
    let ghost err0 = errors@;
    let mut replies = replies;
    let mut errors = errors;
    let mut v: Vec<FullLayer<RI, EI>> = Vec::new();
    let mut j: usize = 0;
    while j < nbpeer - 1
        invariant
            nbpeer >= 2,
            nrep == rep0.len(),
            nerr == err0.len(),
            nrep >= nbpeer - 1,
            nerr >= nbpeer - 1,
            plans@.len() == nbpeer - 1,
            forall|k: int| 0 <= k < plans@.len() ==> #[trigger] plans@[k] == full_layer_at(nbpeer as int, nrep as int, nerr as int, k),
            j <= nbpeer - 1,
            replies@ == rep0.take(nrep - j),
            errors@ == err0.take(nerr - j),
            v@.len() == j,
            forall|k: int|
                0 <= k < j ==> {
                    let p = full_layer_at(nbpeer as int, nrep as int, nerr as int, k);
                    &&& (#[trigger] v@[k]).plan == p
                    &&& v@[k].rep == rep0[p.reply_info as int]
                    &&& v@[k].err == err0[p.error_info as int]
                },
        decreases nbpeer - 1 - j,
    {
        let rep = replies.pop().unwrap();
        let err = errors.pop().unwrap();
        proof {
            assert(rep0.take(nrep - j).drop_last() =~= rep0.take(nrep - j - 1));
            assert(err0.take(nerr - j).drop_last() =~= err0.take(nerr - j - 1));
        }
        v.push(FullLayer { plan: plans[j], rep, err });
        j = j + 1;
    }
    proof {
        assert(v@ =~= layers_with_infos(nbpeer as int, rep0, err0));
    }
    Some(v)
}

/// The layers of a full writer over `n` peers, each with the reply and error
/// infos its plan names among `rep` and `err`.
pub open spec fn layers_with_infos<RI, EI>(n: int, rep: Seq<RI>, err: Seq<EI>) -> Seq<FullLayer<RI, EI>> {
    Seq::new(
        (n - 1) as nat,
        |j: int|
            {
                let p = full_layer_at(n, rep.len() as int, err.len() as int, j);
                FullLayer { plan: p, rep: rep[p.reply_info as int], err: err[p.error_info as int] }
            },
    )
}

/// Where the reply payload of a writer's destination layer goes, from whether
/// its reply info asks for one and whether the reply route differs from the
/// query's.
pub open spec fn payload_route(requires_payload: bool, other_route: bool) -> ReplyPayloadRoute {
    if !requires_payload {
        ReplyPayloadRoute::NoPayload
    } else if other_route {
        ReplyPayloadRoute::ReplyRoute
    } else {
        ReplyPayloadRoute::Reversed
    }
}

/// What making the layers of a full writer over `peers` gives, the reply
/// provider being `rp` and the error provider `ep` before their calls: none
/// for fewer than two peers; otherwise, with the infos the providers gave for
/// `peers`, the layers of those infos and the route of the destination's
/// reply payload exactly when each provider gave enough infos.
pub open spec fn shads_outcome<P, RI: RepInfo, EI, SSW, SSR, RP: ReplyProvider<P, RI, SSW, SSR>, EP: ErrorProvider<P, EI>>(
    rp: RP,
    ep: EP,
    peers: Seq<&P>,
    other_route: bool,
    r: Option<(Vec<FullLayer<RI, EI>>, ReplyPayloadRoute)>,
) -> bool {
    if peers.len() < 2 {
        r is None
    } else {
        exists|rep: Seq<RI>, err: Seq<EI>|
            #![trigger rp.gives_replies(peers, rep), ep.gives_error_infos(peers, err)]
            {
                &&& rp.gives_replies(peers, rep)
                &&& ep.gives_error_infos(peers, err)
                &&& (r is Some <==> rep.len() >= peers.len() - 1 && err.len() >= peers.len() - 1)
                &&& r matches Some(t) ==> {
                    &&& t.0@ == layers_with_infos(peers.len() as int, rep, err)
                    &&& t.1 == payload_route(t.0@[0].rep.requires_payload(), other_route)
                }
            }
    }
}

/// The layers of a full writer over the route `peers` (the emitter first),
/// with the infos the providers give for it, and where the reply payload of
/// the destination's layer goes (`other_route`: the reply mode has a reply
/// route different from the query's); none when the route has fewer than two
/// peers or a provider gives too few infos.
pub fn make_shads_layers<P, RI: RepInfo, EI, SSW, SSR, RP: ReplyProvider<P, RI, SSW, SSR>, EP: ErrorProvider<P, EI>>(
    peers: &[&P],
    reply_prov: &mut RP,
    error_prov: &mut EP,
    other_route: bool,
) -> (r: Option<(Vec<FullLayer<RI, EI>>, ReplyPayloadRoute)>)
    ensures
        shads_outcome(*old(reply_prov), *old(error_prov), peers@, other_route, r),
{
    let nbpeer = peers.len();
    if nbpeer < 2 {
        return None;
    }
    let errors = error_prov.new_error_route(peers);
    let replies = reply_prov.new_reply(peers);
    let ghost rep = replies@;
    let ghost err = errors@;
    let res = match full_layers_with_infos(nbpeer, replies, errors) {
        None => None,
        Some(v) => {
            let payload = make_shads_reply_payload(v[0].rep.require_additional_payload(), other_route);
            Some((v, payload))
        },
    };
    proof {
        assert(old(reply_prov).gives_replies(peers@, rep) && old(error_prov).gives_error_infos(peers@, err));
    }
    res
}

/// The layers of a full writer for the destination `dest`, over the route the
/// route provider gives, as `make_shads_layers` makes them.
pub fn next_shads_layers<
    P,
    RI: RepInfo,
    EI,
    SSW,
    SSR,
    RoP: RouteProvider<P>,
    RP: ReplyProvider<P, RI, SSW, SSR>,
    EP: ErrorProvider<P, EI>,
>(
    dest: &P,
    route_prov: &mut RoP,
    reply_prov: &mut RP,
    error_prov: &mut EP,
    other_route: bool,
) -> (r: Option<(Vec<FullLayer<RI, EI>>, ReplyPayloadRoute)>)
    ensures
        exists|peers: Seq<&P>|
            #[trigger] old(route_prov).gives_route(*dest, peers) && shads_outcome(
                *old(reply_prov),
                *old(error_prov),
                peers,
                other_route,
                r,
            ),
{
    let peers = route_prov.new_route(dest);
    let r = make_shads_layers(peers.as_slice(), reply_prov, error_prov, other_route);
    proof {
        assert(old(route_prov).gives_route(*dest, peers@));
    }
    r
}

/// What a destination reader reads of the content.
#[derive(Debug, Clone, Copy, PartialEq, Eq, Structural)]
pub enum DestReaderKind {
    /// the content as it is
    Id,
    /// the content shadowed with the symmetric keys of each hop
    Multi,
}

/// The destination reader for a frame read in `state`: queries are read as
/// they are, replies with the keys of the hops; a frame in the plain tunnel
/// state has no reader (an error). Cached replies and error frames have no
/// destination reader at all.
pub fn dest_reader_kind(state: TunnelState) -> (r: Result<DestReaderKind, TunnelError>)
    requires
        state != TunnelState::ReplyCached,
        state != TunnelState::QError,
        state != TunnelState::QErrorCached,
    ensures
        r == match state {
            TunnelState::TunnelState => Err(TunnelError::InvalidReaderState),
            TunnelState::ReplyOnce => Ok(DestReaderKind::Multi),
            _ => Ok::<DestReaderKind, TunnelError>(DestReaderKind::Id),
        },
{
    match state {
        TunnelState::TunnelState => Err(TunnelError::InvalidReaderState),
        TunnelState::ReplyOnce => Ok(DestReaderKind::Multi),
        _ => Ok(DestReaderKind::Id),
    }
}

/// The destination reader of a frame: the content as it is, or shadowed with
/// one symmetric reader per hop of the reply.
pub enum DestReader<SSR> {
    Id,
    Multi(Vec<SSR>),
}

/// Makes the destination reader of a frame read in `state`: queries are read
/// as they are; a reply is read with one symmetric reader per reply key of
/// the origin reader (`dest_read_keys`), made by `prov` in the keys' order,
/// the keys being taken from the origin reader; a frame in the plain tunnel
/// state has no reader (an error). Cached replies and error frames have no
/// destination reader at all.
pub fn new_dest_reader<SSW, SSR, SP: SymProvider<SSW, SSR>>(
    state: TunnelState,
    dest_read_keys: &mut Option<Vec<Vec<u8>>>,
    prov: &mut SP,
) -> (r: Result<DestReader<SSR>, TunnelError>)
    requires
        state != TunnelState::ReplyCached,
        state != TunnelState::QError,
        state != TunnelState::QErrorCached,
        state == TunnelState::ReplyOnce ==> *old(dest_read_keys) is Some,
    ensures
        state == TunnelState::TunnelState ==> (r matches Err(TunnelError::InvalidReaderState)
            && *final(dest_read_keys) == *old(dest_read_keys)),
        (state == TunnelState::QueryOnce || state == TunnelState::QueryCached) ==> (r matches Ok(DestReader::Id)
            && *final(dest_read_keys) == *old(dest_read_keys)),
        state == TunnelState::ReplyOnce ==> {
            &&& *final(dest_read_keys) is None
            &&& r matches Ok(DestReader::Multi(v)) && v@.len() == old(dest_read_keys)->Some_0@.len() && forall|i: int|
                0 <= i < v@.len() ==> SP::reader_key(#[trigger] v@[i]) == old(dest_read_keys)->Some_0@[i]@
        },
{
    match dest_reader_kind(state) {
        Err(e) => Err(e),
        Ok(DestReaderKind::Id) => Ok(DestReader::Id),
        Ok(DestReaderKind::Multi) => {
            let ks = dest_read_keys.take().unwrap();
            let ghost k0 = ks@;
            let mut readers: Vec<SSR> = Vec::new();
            let mut i: usize = 0;
            while i < ks.len()
                invariant
                    ks@ == k0,
                    i <= k0.len(),
                    readers@.len() == i,
                    forall|j: int| 0 <= j < i ==> SP::reader_key(#[trigger] readers@[j]) == k0[j]@,
                decreases k0.len() - i,
            {
                let k = ks[i].clone();
                let rd = prov.new_sym_reader(k);
                readers.push(rd);
                i = i + 1;
            }
            Ok(DestReader::Multi(readers))
        },
    }
}

/// What a proxy writer does with the content.
#[derive(Debug, Clone, Copy, PartialEq, Eq, Structural)]
pub enum ProxyWriterKind {
    /// proxies a reply, shadowing it with the hop's reply key
    ReplyOnce,
    /// proxies a query whose symmetric writer is cached under a new cache id
    QueryCached,
    /// proxies a reply with the cached symmetric writer
    ReplyCached,
    /// proxies a query as it is, keeping its state
    QueryOnce(TunnelState),
}

/// The proxy writer for a frame read in `state` (error frames have none).
pub fn proxy_writer_kind(state: TunnelState) -> (r: ProxyWriterKind)
    requires
        state != TunnelState::QError,
        state != TunnelState::QErrorCached,
    ensures
        r == match state {
            TunnelState::ReplyOnce => ProxyWriterKind::ReplyOnce,
            TunnelState::QueryCached => ProxyWriterKind::QueryCached,
            TunnelState::ReplyCached => ProxyWriterKind::ReplyCached,
            _ => ProxyWriterKind::QueryOnce(state),
        },
{
    match state {
        TunnelState::ReplyOnce => ProxyWriterKind::ReplyOnce,
        TunnelState::QueryCached => ProxyWriterKind::QueryCached,
        TunnelState::ReplyCached => ProxyWriterKind::ReplyCached,
        _ => ProxyWriterKind::QueryOnce(state),
    }
}

} // verus!
