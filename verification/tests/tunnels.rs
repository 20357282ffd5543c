use mydht_base::bytes_wr::{ByteSource, EscapeTerm, SizedWindows, SizedWindowsParams};
use mydht_base::tunnel::{proxy_cached_err, proxy_content, report_error};
use mydht_base::tunnel::{
    clone_tunnel_mode, identify_cached_errcode, xor_err_code, ErrorHandlingInfo, ErrorHandlingMode,
    TunnelError, TunnelMode, TunnelShadowMode, TunnelState,
};

fn tunnel(e: ErrorHandlingMode) -> TunnelMode {
    TunnelMode::Tunnel(3, TunnelShadowMode::Full, e)
}

fn bitunnel(e: ErrorHandlingMode) -> TunnelMode {
    TunnelMode::BiTunnel(3, TunnelShadowMode::Last, false, e)
}

fn norep(e: ErrorHandlingMode) -> TunnelMode {
    TunnelMode::NoRepTunnel(3, TunnelShadowMode::LastDefault, e)
}

#[test]
fn cache_ids_are_sent_with_cached_routes() {
    assert!(!TunnelMode::NoTunnel.do_cache());
    assert!(tunnel(ErrorHandlingMode::ErrorCachedRoute).do_cache());
    assert!(tunnel(ErrorHandlingMode::ErrorRoute).do_cache());
    assert!(!tunnel(ErrorHandlingMode::NoHandling).do_cache());
    assert!(bitunnel(ErrorHandlingMode::ErrorCachedRoute).do_cache());
    assert!(!bitunnel(ErrorHandlingMode::ErrorRoute).do_cache());
    assert!(norep(ErrorHandlingMode::ErrorCachedRoute).do_cache());
    assert!(!norep(ErrorHandlingMode::KnownDest(None)).do_cache());
}

#[test]
fn error_routes_are_inserted_with_error_route_mode() {
    assert!(!TunnelMode::NoTunnel.insert_error_route());
    assert!(tunnel(ErrorHandlingMode::ErrorRoute).insert_error_route());
    assert!(bitunnel(ErrorHandlingMode::ErrorRoute).insert_error_route());
    assert!(norep(ErrorHandlingMode::ErrorRoute).insert_error_route());
    assert!(!tunnel(ErrorHandlingMode::ErrorCachedRoute).insert_error_route());
}

#[test]
fn modes_of_a_tunnel() {
    let m = bitunnel(ErrorHandlingMode::KnownDest(Some(Box::new(TunnelMode::NoTunnel))));
    assert_eq!(m.errhandling_mode(), ErrorHandlingMode::KnownDest(Some(Box::new(TunnelMode::NoTunnel))));
    assert_eq!(TunnelMode::NoTunnel.errhandling_mode(), ErrorHandlingMode::NoHandling);
    assert_eq!(m.tunnel_shadow_mode(), TunnelShadowMode::Last);
    assert_eq!(TunnelMode::NoTunnel.tunnel_shadow_mode(), TunnelShadowMode::NoShadow);
    assert!(m.is_het());
    assert!(m.head_mode());
    assert!(!m.is_full_enc());
    let f = tunnel(ErrorHandlingMode::NoHandling);
    assert!(f.is_full_enc());
    assert!(!f.is_het());
    assert!(!norep(ErrorHandlingMode::NoHandling).is_het());
    assert!(TunnelShadowMode::Last.is_het());
    assert!(!TunnelShadowMode::LastDefault.is_het());
    assert_eq!(clone_tunnel_mode(&m), m);
    assert_eq!(m.clone(), m);
}

#[test]
fn error_report_states() {
    assert_eq!(tunnel(ErrorHandlingMode::ErrorRoute).report_error_state(), Some(TunnelState::QError));
    assert_eq!(
        norep(ErrorHandlingMode::ErrorCachedRoute).report_error_state(),
        Some(TunnelState::QErrorCached)
    );
    assert_eq!(bitunnel(ErrorHandlingMode::NoHandling).report_error_state(), None);
    assert_eq!(TunnelMode::NoTunnel.report_error_state(), None);
}

#[test]
fn error_infos_with_cached_codes() {
    let route = [(11usize, 'a'), (22, 'b'), (33, 'c')];
    let infos = tunnel(ErrorHandlingMode::NoHandling).errhandling_infos(&route, None);
    let codes: Vec<usize> = infos.iter().map(|i| i.get_error_code()).collect();
    assert_eq!(codes, vec![11, 22, 33]);
    let infos = norep(ErrorHandlingMode::ErrorCachedRoute).errhandling_infos(&route, None);
    let codes: Vec<usize> = infos.iter().map(|i| i.get_error_code()).collect();
    assert_eq!(codes, vec![11, 22, 33]);
}

#[test]
fn error_infos_known_dest_and_routes() {
    let route = [(11usize, 'a'), (22, 'b'), (33, 'c')];
    let infos = bitunnel(ErrorHandlingMode::KnownDest(None)).errhandling_infos(&route, None);
    assert_eq!(infos.len(), 3);
    assert!(matches!(infos[0], ErrorHandlingInfo::NoHandling));
    assert!(matches!(infos[1], ErrorHandlingInfo::NoHandling));
    assert!(matches!(infos[2], ErrorHandlingInfo::KnownDest('a', None)));
    let infos = norep(ErrorHandlingMode::ErrorRoute).errhandling_infos(&route, None);
    assert!(infos.iter().all(|i| matches!(i, ErrorHandlingInfo::ErrorRoute)));
    let infos = norep(ErrorHandlingMode::NoHandling).errhandling_infos(&route, None);
    assert!(infos.iter().all(|i| matches!(i, ErrorHandlingInfo::NoHandling)));
    let infos = TunnelMode::NoTunnel.errhandling_infos(&route, None);
    assert!(infos.iter().all(|i| i.get_error_code() == 0));
}

#[test]
fn xor_of_codes() {
    assert_eq!(xor_err_code(0b1100, 0b1010), 0b0110);
    assert_eq!(xor_err_code(7, 7), 0);
}

#[test]
fn reporter_is_identified_by_its_code() {
    let route = [(0usize, ()), (0b0001, ()), (0b0110, ()), (0b1000, ())];
    // hop 3 reports 0b1000; hops 2 and 1 xor their codes on the way back
    let received = 0b1000 ^ 0b0110 ^ 0b0001;
    assert_eq!(identify_cached_errcode(received, &route).ok(), Some(3));
    // hop 2 reports
    let received = 0b0110 ^ 0b0001;
    assert_eq!(identify_cached_errcode(received, &route).ok(), Some(2));
    assert_eq!(identify_cached_errcode(0b0001, &route).ok(), Some(1));
}

#[test]
fn unknown_code_is_an_error() {
    let route = [(0usize, ()), (1, ()), (2, ())];
    let e = identify_cached_errcode(8, &route).err().unwrap();
    assert!(matches!(e, TunnelError::WrongXorErrorCode));
    assert_eq!(e.message(), "Wrong xor error code identifier");
    assert!(identify_cached_errcode(5, &route[..1]).is_err());
    assert_eq!(TunnelError::NoCache.message(), "No tunnel cache");
}

use mydht_base::tunnel::{
    header_has_mode, header_read_plan, proxy_plan, tunnel_writer_plan, ErrorRoutePlan, LayerPlan,
    ReplyRoutePlan,
};

fn layer(peer: usize, next: Option<usize>, error_info: usize) -> LayerPlan {
    LayerPlan { peer, next, error_info }
}

#[test]
fn writer_plan_of_a_query() {
    let p = tunnel_writer_plan(4, &tunnel(ErrorHandlingMode::ErrorRoute), TunnelState::QueryOnce, 0, false);
    assert!(!p.reply);
    assert!(p.with_sym_keys);
    assert!(!p.head_layers);
    assert_eq!(p.layers, vec![layer(3, None, 3), layer(2, Some(3), 2), layer(1, Some(2), 1)]);
    assert_eq!(p.reply_route, ReplyRoutePlan::NoRoute);
    assert_eq!(
        p.error_routes,
        vec![
            ErrorRoutePlan { from_error_route: false, len: 1 },
            ErrorRoutePlan { from_error_route: false, len: 2 }
        ]
    );
    assert_eq!(p.content_shadow, None);
}

#[test]
fn writer_plan_of_an_error_report() {
    let p = tunnel_writer_plan(3, &norep(ErrorHandlingMode::ErrorRoute), TunnelState::QError, 0, false);
    assert!(p.reply);
    assert!(!p.with_sym_keys);
    assert_eq!(p.layers, vec![layer(0, None, 2), layer(1, Some(0), 1)]);
    assert!(p.error_routes.is_empty());
    assert_eq!(p.content_shadow, None);
}

#[test]
fn writer_plan_of_a_two_paths_reply() {
    let m = bitunnel(ErrorHandlingMode::ErrorRoute);
    let p = tunnel_writer_plan(5, &m, TunnelState::ReplyOnce, 3, true);
    assert!(p.with_sym_keys);
    assert!(p.head_layers);
    assert_eq!(p.layers.len(), 4);
    assert_eq!(p.reply_route, ReplyRoutePlan::OtherRoute);
    assert_eq!(
        p.error_routes,
        vec![
            ErrorRoutePlan { from_error_route: true, len: 1 },
            ErrorRoutePlan { from_error_route: true, len: 2 },
            ErrorRoutePlan { from_error_route: true, len: 2 }
        ]
    );
    assert_eq!(p.content_shadow, Some(4));
    let same = TunnelMode::BiTunnel(2, TunnelShadowMode::Full, true, ErrorHandlingMode::NoHandling);
    let p = tunnel_writer_plan(2, &same, TunnelState::QueryOnce, 0, false);
    assert_eq!(p.reply_route, ReplyRoutePlan::SameRoute);
    assert!(!p.with_sym_keys);
    assert!(p.error_routes.is_empty());
}

#[test]
fn writer_plan_without_tunnel() {
    let p = tunnel_writer_plan(3, &TunnelMode::NoTunnel, TunnelState::QueryOnce, 0, false);
    assert!(p.layers.is_empty());
    assert!(p.error_routes.is_empty());
    assert_eq!(p.reply_route, ReplyRoutePlan::NoRoute);
    assert_eq!(p.content_shadow, None);
}

#[test]
fn reader_header_plans() {
    assert!(!header_has_mode(TunnelState::ReplyCached));
    assert!(header_has_mode(TunnelState::QueryOnce));
    let h = header_read_plan(TunnelState::QueryCached, &tunnel(ErrorHandlingMode::ErrorCachedRoute));
    assert!(h.cache_id && h.proxy_info && h.reply_key && !h.content_header_if_dest);
    let h = header_read_plan(TunnelState::ReplyOnce, &tunnel(ErrorHandlingMode::NoHandling));
    assert!(!h.cache_id && h.proxy_info && !h.reply_key);
    let h = header_read_plan(TunnelState::QueryOnce, &bitunnel(ErrorHandlingMode::NoHandling));
    assert!(!h.reply_key && h.content_header_if_dest);
    let h = header_read_plan(TunnelState::QueryOnce, &TunnelMode::NoTunnel);
    assert!(!h.cache_id && !h.proxy_info && !h.reply_key && !h.content_header_if_dest);
    // what the writer of the same state and mode puts in
    let w = tunnel_writer_plan(3, &tunnel(ErrorHandlingMode::NoHandling), TunnelState::QueryCached, 0, false);
    let h = header_read_plan(TunnelState::QueryCached, &tunnel(ErrorHandlingMode::NoHandling));
    assert_eq!(h.reply_key, w.with_sym_keys);
}

#[test]
fn proxy_plans() {
    let p = proxy_plan(&bitunnel(ErrorHandlingMode::ErrorRoute));
    assert!(!p.cache_id && p.payload && p.error_route);
    let p = proxy_plan(&norep(ErrorHandlingMode::ErrorCachedRoute));
    assert!(p.cache_id && !p.payload && !p.error_route);
}

use mydht_base::tunnel::{TunnelProxyInfo, TunnelReaderExt};

#[test]
fn tunnel_reader_defaults() {
    let r: TunnelReaderExt<u8, char> = TunnelReaderExt::new(None, None);
    assert_eq!(r.mode, TunnelMode::NoTunnel);
    assert_eq!(r.state, TunnelState::QueryOnce);
    assert_eq!(r.is_dest(), None);
    assert_eq!(r.error_code(), 0);
    assert!(r.previous_tunnelid().is_empty());
    let r: TunnelReaderExt<u8, char> =
        TunnelReaderExt::new(Some(tunnel(ErrorHandlingMode::NoHandling)), Some(TunnelState::ReplyOnce));
    assert_eq!(r.state, TunnelState::ReplyOnce);
    assert!(r.mode.is_full_enc());
}

#[test]
fn tunnel_reader_takes_in_headers() {
    let mut r: TunnelReaderExt<u8, char> = TunnelReaderExt::new(None, None);
    // a proxy hop of a tunnel with cached routes
    let tpi = TunnelProxyInfo {
        next_proxy_peer: Some(7u8),
        tunnel_id: 3,
        tunnel_id_failure: None,
        error_handle: ErrorHandlingInfo::ErrorCachedRoute(42),
    };
    r.header_read(
        TunnelState::QueryCached,
        tunnel(ErrorHandlingMode::ErrorCachedRoute),
        Some(vec![1, 2]),
        Some(tpi),
        Some(vec![9]),
    );
    assert_eq!(r.state, TunnelState::QueryCached);
    assert_eq!(r.previous_tunnelid(), &[1, 2]);
    assert_eq!(r.is_dest(), Some(false));
    assert_eq!(r.error_code(), 42);
    assert_eq!(r.rep_key, Some(vec![9]));
    // a cached reply: only the cache id
    r.header_read(TunnelState::ReplyCached, TunnelMode::NoTunnel, Some(vec![5]), None, None);
    assert_eq!(r.state, TunnelState::ReplyCached);
    assert_eq!(r.previous_tunnelid(), &[5]);
    assert_eq!(r.mode, tunnel(ErrorHandlingMode::ErrorCachedRoute));
    assert_eq!(r.rep_key, Some(vec![9]));
    // no tunnel: this peer is the destination
    r.header_read(TunnelState::QueryOnce, TunnelMode::NoTunnel, None, None, None);
    assert_eq!(r.is_dest(), Some(true));
    assert_eq!(r.error_code(), 0);
    assert_eq!(r.previous_tunnelid(), &[5]);
    assert_eq!(r.rep_key, None);
}

use mydht_base::tunnel::{content_write, ends_with_reply_route, simkeys_to_write, ContentPath};

#[test]
fn content_paths() {
    let het = bitunnel(ErrorHandlingMode::NoHandling);
    assert_eq!(content_write(&TunnelMode::NoTunnel, true), ContentPath::Direct);
    assert_eq!(content_write(&het, true), ContentPath::ContentShadow);
    assert_eq!(content_write(&het, false), ContentPath::Layers);
    let mut r: TunnelReaderExt<u8, char> = TunnelReaderExt::new(None, None);
    assert_eq!(r.content_read(), ContentPath::Direct);
    let dest = TunnelProxyInfo {
        next_proxy_peer: None,
        tunnel_id: 1,
        tunnel_id_failure: None,
        error_handle: ErrorHandlingInfo::NoHandling,
    };
    r.header_read(TunnelState::QueryOnce, het.clone(), None, Some(dest), None);
    assert_eq!(r.content_read(), ContentPath::ContentShadow);
    let proxy = TunnelProxyInfo {
        next_proxy_peer: Some(2u8),
        tunnel_id: 1,
        tunnel_id_failure: None,
        error_handle: ErrorHandlingInfo::NoHandling,
    };
    r.header_read(TunnelState::QueryOnce, het, None, Some(proxy), None);
    assert_eq!(r.content_read(), ContentPath::Layers);
}

#[test]
fn reply_routes_at_end_and_keys() {
    assert!(ends_with_reply_route(&bitunnel(ErrorHandlingMode::NoHandling), true));
    assert!(!ends_with_reply_route(&bitunnel(ErrorHandlingMode::NoHandling), false));
    assert!(!ends_with_reply_route(&tunnel(ErrorHandlingMode::NoHandling), true));
    let keys = vec![Some(vec![1, 2]), None, Some(vec![3])];
    assert_eq!(simkeys_to_write(&keys), vec![vec![1, 2], vec![], vec![3]]);
}

#[test]
fn proxy_forwards_content_and_payload() {
    // content [1, 5, 2] and payload [9] framed with escape byte 5, the error
    // destination's key (one byte, 77), then a byte of others
    let input = vec![1, 5, 5, 2, 5, 0, 9, 5, 0, 77, 42];
    let mut r = ByteSource::new(input);
    let mut w = Vec::new();
    let mut buf = [0u8; 2];
    let mut content = EscapeTerm::new(5);
    let res = proxy_content(
        &mut buf,
        &mut content,
        EscapeTerm::new(3),
        Some((EscapeTerm::new(5), EscapeTerm::new(3))),
        Some((1, EscapeTerm::new(5))),
        &[7, 7],
        &mut r,
        &mut w,
    );
    assert!(res.is_ok());
    assert_eq!(w, vec![7, 7, 1, 5, 2, 3, 0, 9, 3, 0]);
    assert_eq!(r.remaining(), 1);
    assert_eq!(r.read_byte(), Some(42));
}

#[test]
fn proxy_fails_on_a_read_error() {
    // a full first window and no marker after it
    let mut r = ByteSource::new(vec![1, 2]);
    let mut w = Vec::new();
    let mut buf = [0u8; 4];
    let mut content = SizedWindows::new(Two);
    let res = proxy_content(&mut buf, &mut content, EscapeTerm::new(0), None, None, &[], &mut r, &mut w);
    assert!(res.is_err());
}

#[test]
fn report_error_frames() {
    let mut buf = [0u8; 3];
    // error route: the state, then the content of the error route frame as it is
    let mut r = ByteSource::new(vec![4, 0, 0, 6, 0, 1, 8]);
    let mut w = Vec::new();
    let res = report_error(&mut buf, &tunnel(ErrorHandlingMode::ErrorRoute), EscapeTerm::new(0), &[2], &[], &mut r, &mut w);
    assert!(res.is_ok());
    assert_eq!(w, vec![2, 4, 0, 6]);
    assert_eq!(r.remaining(), 1);
    // cached error route: the state, the previous id and the error code
    let mut r = ByteSource::new(vec![8]);
    let mut w = Vec::new();
    let res = report_error(
        &mut buf,
        &tunnel(ErrorHandlingMode::ErrorCachedRoute),
        EscapeTerm::new(0),
        &[3],
        &[1, 2, 5],
        &mut r,
        &mut w,
    );
    assert!(res.is_ok());
    assert_eq!(w, vec![3, 1, 2, 5]);
    assert_eq!(r.remaining(), 1);
    // no error handling: nothing
    let mut w = Vec::new();
    let res = report_error(&mut buf, &tunnel(ErrorHandlingMode::NoHandling), EscapeTerm::new(0), &[3], &[1], &mut r, &mut w);
    assert!(res.is_ok());
    assert!(w.is_empty());
}

/// Windows of two bytes, sizes not written.
struct Two;
impl SizedWindowsParams for Two {
    const INIT_SIZE: usize = 2;
    const GROWTH_RATIO: Option<(usize, usize)> = None;
    const WRITE_SIZE: bool = false;
}

#[test]
fn proxy_cached_error_xors_the_code() {
    // received code 6, this hop's code 3: 6 ^ 3 == 5
    let mut r = ByteSource::new(vec![0, 0, 0, 0, 0, 0, 0, 6, 9]);
    let mut w = vec![1];
    assert!(proxy_cached_err(&mut r, &mut w, &[4], &[7, 7], 3).is_ok());
    assert_eq!(w, vec![1, 4, 7, 7, 0, 0, 0, 0, 0, 0, 0, 5]);
    assert_eq!(r.remaining(), 1);
    // no code to read
    let mut r = ByteSource::new(vec![6, 0]);
    let mut w = Vec::new();
    assert!(proxy_cached_err(&mut r, &mut w, &[4], &[7], 3).is_err());
    assert!(w.is_empty());
}
