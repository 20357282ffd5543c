use mydht_base::tunnel_new::full::{new_dest_reader, DestReader};
use mydht_base::tunnel_new::{ReplyProvider, SymProvider};
use mydht_base::tunnel_new::full::{make_shads_layers, next_shads_layers, full_layers_with_infos};
use mydht_base::tunnel_new::info::multi::{new_reply_with_routes, reversed_route};
use mydht_base::tunnel_new::RouteProvider;
use mydht_base::tunnel_new::info::multi::new_reply;
use mydht_base::bytes_wr::ByteSource;
use mydht_base::tunnel::TunnelError;
use mydht_base::tunnel_new::info::error::{
    MulErrorProvider, MultipleErrorInfo, MultipleErrorMode, NoErrorProvider,
};
use mydht_base::tunnel_new::info::multi::{MultipleReplyInfo, MultipleReplyMode};
use mydht_base::tunnel_new::nope::{Nope, TunnelNope};
use mydht_base::tunnel_new::{
    ErrorProvider, Info, RepInfo, TunnelCache, TunnelErrorWriter, TunnelNoRep, TunnelReaderNoRep,
    TunnelWriter,
};

#[test]
fn nope_writes_and_reads_nothing() {
    let mut n = Nope;
    let mut w = vec![1u8];
    assert!(!n.do_cache());
    assert!(n.write_in_header(&mut w).is_ok());
    assert!(n.write_after(&mut w).is_ok());
    assert!(!n.require_additional_payload());
    assert!(n.get_reply_key().is_none());
    assert!(n.write_state(&mut w).is_ok());
    assert!(n.write_connect_info(&mut w).is_ok());
    assert!(n.write_tunnel_header(&mut w).is_ok());
    assert_eq!(n.write_tunnel_into(&mut w, &[1, 2, 3]).ok(), Some(3));
    assert!(n.write_tunnel_all_into(&mut w, &[1, 2, 3]).is_ok());
    assert!(n.flush_tunnel_into(&mut w).is_ok());
    assert!(n.write_tunnel_end(&mut w).is_ok());
    assert!(n.write_error(&mut w, 5).is_ok());
    assert_eq!(w, vec![1]);
    let mut r = ByteSource::new(vec![4, 5]);
    assert!(n.read_state(&mut r).is_ok());
    assert!(n.read_connect_info(&mut r).is_ok());
    assert!(n.read_tunnel_header(&mut r).is_ok());
    assert!(n.read_dest_info(&mut r).is_ok());
    assert_eq!(r.remaining(), 2);
}

#[test]
fn nope_caches_nothing() {
    let mut n = Nope;
    let put: Result<Vec<u8>, TunnelError> = TunnelCache::<u8, u16>::put_symw_tunnel(&mut n, 3u8);
    assert!(matches!(put, Err(TunnelError::NoCache)));
    assert!(TunnelCache::<u8, u16>::get_symw_tunnel(&mut n, &[1]).is_err());
    assert!(!TunnelCache::<u8, u16>::has_symw_tunnel(&mut n, &[1]));
    assert!(TunnelCache::<u8, u16>::put_symr_tunnel(&mut n, 4u16).is_err());
    assert!(TunnelCache::<u8, u16>::get_symr_tunnel(&mut n, &[1]).is_err());
    assert!(!TunnelCache::<u8, u16>::has_symr_tunnel(&mut n, &[1]));
    assert!(TunnelCache::<u8, u16>::new_cache_id(&mut n).is_empty());
}

#[test]
fn nope_tunnel_makes_nopes() {
    let mut t: TunnelNope<u32> = TunnelNope::new();
    let _r: Nope = t.new_reader();
    let _w: Nope = t.new_writer(&3);
    let _tw: Nope = t.new_tunnel_writer(&3);
    let _rw: Nope = t.new_writer_with_route(&[&1, &2]);
    let _trw: Nope = t.new_tunnel_writer_with_route(&[&1, &2]);
    assert!(t.new_proxy_writer(Nope).is_ok());
    assert!(t.new_dest_reader(Nope).is_ok());
}

#[test]
fn reply_infos() {
    let c: MultipleReplyInfo<u8> = MultipleReplyInfo::CachedRoute(vec![1, 2]);
    assert!(c.do_cache());
    assert_eq!(c.get_reply_key(), Some(&vec![1, 2]));
    let mut k: MultipleReplyInfo<u8> = MultipleReplyInfo::KnownDest(4);
    assert!(!k.do_cache());
    assert!(k.get_reply_key().is_none());
    let mut w = vec![9];
    assert!(k.write_after(&mut w).is_ok());
    assert_eq!(w, vec![9]);
    assert!(!MultipleReplyInfo::<u8>::Route.do_cache());
    assert!(MultipleReplyMode::OtherRoute != MultipleReplyMode::Route);
}

#[test]
fn error_infos_of_providers() {
    assert!(MultipleErrorInfo::CachedRoute(3).do_cache());
    assert!(!MultipleErrorInfo::NoHandling.do_cache());
    let route = [&'a', &'b', &'c', &'d'];
    let mut cached = MulErrorProvider {
        mode: MultipleErrorMode::CachedRoute,
        lim: (),
        tunrep: (),
        mintunlength: 2,
        routeprov: (),
    };
    let infos = cached.new_error_route(&route[..]);
    assert_eq!(infos.len(), 3);
    assert!(infos.iter().all(|i| i.do_cache()));
    let mut none = MulErrorProvider {
        mode: MultipleErrorMode::KnownDest,
        lim: (),
        tunrep: (),
        mintunlength: 2,
        routeprov: (),
    };
    let infos = ErrorProvider::<char, MultipleErrorInfo>::new_error_route(&mut none, &route[..]);
    assert_eq!(infos, vec![MultipleErrorInfo::NoHandling; 3]);
    let empty: [&char; 0] = [];
    assert!(ErrorProvider::<char, MultipleErrorInfo>::new_error_route(&mut none, &empty).is_empty());
    let infos = ErrorProvider::<char, MultipleErrorInfo>::new_error_route(&mut NoErrorProvider, &route[..]);
    assert_eq!(infos, vec![MultipleErrorInfo::NoHandling; 4]);
}

use mydht_base::tunnel::TunnelState;
use mydht_base::tunnel_new::full::{
    dest_reader_kind, full_layers, get_write_state, make_shads_reply_payload, next_shads_reply_payload,
    DestReaderKind, FullLayerPlan, ProxyWriterKind, ReplyPayloadRoute, proxy_writer_kind,
};

#[test]
fn full_write_states() {
    assert_eq!(get_write_state(MultipleReplyMode::CachedRoute, false), TunnelState::QueryCached);
    assert_eq!(get_write_state(MultipleReplyMode::Route, false), TunnelState::QueryOnce);
    assert_eq!(get_write_state(MultipleReplyMode::NoHandling, false), TunnelState::QueryOnce);
    assert_eq!(get_write_state(MultipleReplyMode::CachedRoute, true), TunnelState::ReplyOnce);
}

#[test]
fn full_layers_of_a_route() {
    let l = full_layers(4, 3, 5);
    assert_eq!(
        l,
        vec![
            FullLayerPlan { peer: 3, next: None, reply_info: 2, error_info: 4 },
            FullLayerPlan { peer: 2, next: Some(3), reply_info: 1, error_info: 3 },
            FullLayerPlan { peer: 1, next: Some(2), reply_info: 0, error_info: 2 },
        ]
    );
    assert_eq!(full_layers(2, 1, 1), vec![FullLayerPlan { peer: 1, next: None, reply_info: 0, error_info: 0 }]);
}

#[test]
fn full_reply_payload_routes() {
    assert_eq!(next_shads_reply_payload(false, true), ReplyPayloadRoute::NoPayload);
    assert_eq!(next_shads_reply_payload(true, true), ReplyPayloadRoute::ReplyRoute);
    assert_eq!(next_shads_reply_payload(true, false), ReplyPayloadRoute::Reversed);
    assert_eq!(make_shads_reply_payload(true, false), ReplyPayloadRoute::Reversed);
    assert_eq!(make_shads_reply_payload(true, true), ReplyPayloadRoute::ReplyRoute);
    assert_eq!(make_shads_reply_payload(false, false), ReplyPayloadRoute::NoPayload);
}

#[test]
fn full_readers_and_proxies() {
    assert!(matches!(dest_reader_kind(TunnelState::QueryOnce), Ok(DestReaderKind::Id)));
    assert!(matches!(dest_reader_kind(TunnelState::QueryCached), Ok(DestReaderKind::Id)));
    assert!(matches!(dest_reader_kind(TunnelState::ReplyOnce), Ok(DestReaderKind::Multi)));
    assert!(matches!(dest_reader_kind(TunnelState::TunnelState), Err(TunnelError::InvalidReaderState)));
    assert_eq!(TunnelError::InvalidReaderState.message(), "invalid reader state");
    assert_eq!(proxy_writer_kind(TunnelState::ReplyOnce), ProxyWriterKind::ReplyOnce);
    assert_eq!(proxy_writer_kind(TunnelState::QueryCached), ProxyWriterKind::QueryCached);
    assert_eq!(proxy_writer_kind(TunnelState::ReplyCached), ProxyWriterKind::ReplyCached);
    assert_eq!(proxy_writer_kind(TunnelState::QueryOnce), ProxyWriterKind::QueryOnce(TunnelState::QueryOnce));
    assert_eq!(
        proxy_writer_kind(TunnelState::TunnelState),
        ProxyWriterKind::QueryOnce(TunnelState::TunnelState)
    );
}

#[test]
fn reply_infos_of_a_route() {
    let r = new_reply(MultipleReplyMode::KnownDest, &'a', 3, vec![]);
    assert_eq!(r.len(), 3);
    assert!(matches!(r[0], MultipleReplyInfo::NoHandling));
    assert!(matches!(r[1], MultipleReplyInfo::NoHandling));
    assert!(matches!(r[2], MultipleReplyInfo::KnownDest('a')));
    let r = new_reply(MultipleReplyMode::Route, &'a', 2, vec![]);
    assert!(matches!(r[0], MultipleReplyInfo::NoHandling));
    assert!(matches!(r[1], MultipleReplyInfo::Route));
    let r = new_reply(MultipleReplyMode::OtherRoute, &'a', 2, vec![]);
    assert!(matches!(r[1], MultipleReplyInfo::Route));
    let r = new_reply(MultipleReplyMode::NoHandling, &'a', 4, vec![]);
    assert!(r.iter().all(|i| matches!(i, MultipleReplyInfo::NoHandling)));
    let r = new_reply(MultipleReplyMode::CachedRoute, &'a', 2, vec![vec![1], vec![2, 3]]);
    assert_eq!(r.len(), 2);
    assert!(matches!(&r[0], MultipleReplyInfo::CachedRoute(k) if k == &vec![1]));
    assert!(matches!(&r[1], MultipleReplyInfo::CachedRoute(k) if k == &vec![2, 3]));
}

/// Routes through two fixed peers.
struct FixedRoutes(Vec<char>);

impl RouteProvider<char> for FixedRoutes {
    fn gives_route(&self, _dest: char, _r: vstd::seq::Seq<&char>) -> bool {
        unreachable!()
    }
    fn gives_reply_route(&self, _dest: char, _r: vstd::seq::Seq<&char>) -> bool {
        unreachable!()
    }
    fn new_route(&mut self, _dest: &char) -> Vec<&char> {
        self.0.iter().collect()
    }
    fn new_reply_route(&mut self, _dest: &char) -> Vec<&char> {
        self.0.iter().collect()
    }
}

#[test]
fn reply_infos_with_reply_routes() {
    let (a, b, c) = ('a', 'b', 'c');
    let route = [&a, &b, &c];
    assert_eq!(reversed_route(&route), vec![&c, &b, &a]);
    let mut t: TunnelNope<char> = TunnelNope::new();
    let mut rp = FixedRoutes(vec!['x', 'y']);
    let r = new_reply_with_routes(MultipleReplyMode::Route, &'a', &route, vec![], &mut t, &mut rp);
    assert_eq!(r.len(), 3);
    assert!(r[0].replyroute.is_none() && r[1].replyroute.is_none() && r[2].replyroute.is_some());
    assert!(matches!(r[2].info, MultipleReplyInfo::Route));
    let r = new_reply_with_routes(MultipleReplyMode::OtherRoute, &'a', &route, vec![], &mut t, &mut rp);
    assert!(r[2].replyroute.is_some());
    let r = new_reply_with_routes(MultipleReplyMode::KnownDest, &'a', &route, vec![], &mut t, &mut rp);
    assert!(r.iter().all(|i| i.replyroute.is_none()));
    assert!(matches!(r[2].info, MultipleReplyInfo::KnownDest('a')));
}

/// Gives `n` reply infos for any route.
struct NopeReplies(usize);

impl SymProvider<(), ()> for NopeReplies {
    fn reader_key(_r: ()) -> vstd::seq::Seq<u8> {
        unreachable!()
    }
    fn new_sym_key(&mut self) -> Vec<u8> {
        vec![]
    }
    fn new_sym_writer(&mut self, _key: Vec<u8>) {}
    fn new_sym_reader(&mut self, _key: Vec<u8>) {}
}

impl ReplyProvider<char, Nope, (), ()> for NopeReplies {
    fn gives_replies(&self, _route: vstd::seq::Seq<&char>, _r: vstd::seq::Seq<Nope>) -> bool {
        unreachable!()
    }
    fn new_reply(&mut self, _route: &[&char]) -> Vec<Nope> {
        (0..self.0).map(|_| Nope).collect()
    }
}

#[test]
fn full_layers_take_infos_last_first() {
    let l = full_layers_with_infos(3, vec!['a', 'b', 'c'], vec![1u8, 2]).unwrap();
    assert_eq!(l.len(), 2);
    assert_eq!(l[0].plan, FullLayerPlan { peer: 2, next: None, reply_info: 2, error_info: 1 });
    assert_eq!((l[0].rep, l[0].err), ('c', 2));
    assert_eq!((l[1].rep, l[1].err), ('b', 1));
    assert!(full_layers_with_infos(3, vec!['a'], vec![1u8, 2]).is_none());
}

#[test]
fn shads_layers_from_providers() {
    let (a, b, c) = ('a', 'b', 'c');
    let route = [&a, &b, &c];
    let mut errs = NoErrorProvider;
    let (layers, payload) = make_shads_layers(&route, &mut NopeReplies(3), &mut errs, false).unwrap();
    assert_eq!(layers.len(), 2);
    assert_eq!(layers[0].plan.peer, 2);
    assert_eq!(payload, ReplyPayloadRoute::NoPayload);
    assert!(make_shads_layers(&route, &mut NopeReplies(1), &mut errs, false).is_none());
    assert!(make_shads_layers(&route[..1], &mut NopeReplies(3), &mut errs, false).is_none());
    let mut rp = FixedRoutes(vec!['x', 'y', 'z', 'w']);
    let (layers, _) = next_shads_layers(&'w', &mut rp, &mut NopeReplies(4), &mut errs, true).unwrap();
    assert_eq!(layers.len(), 3);
    assert_eq!(layers[2].plan, FullLayerPlan { peer: 1, next: Some(2), reply_info: 1, error_info: 1 });
}

#[test]
fn destination_readers() {
    let mut prov = NopeReplies(0);
    let mut keys = Some(vec![vec![1u8], vec![2u8]]);
    match new_dest_reader(TunnelState::ReplyOnce, &mut keys, &mut prov) {
        Ok(DestReader::Multi(v)) => assert_eq!(v.len(), 2),
        _ => panic!("expected one reader per key"),
    }
    assert!(keys.is_none());
    let mut keys = Some(vec![vec![1u8]]);
    assert!(matches!(new_dest_reader(TunnelState::QueryOnce, &mut keys, &mut prov), Ok(DestReader::Id)));
    assert!(keys.is_some());
    assert!(matches!(
        new_dest_reader(TunnelState::TunnelState, &mut keys, &mut prov),
        Err(TunnelError::InvalidReaderState)
    ));
}
