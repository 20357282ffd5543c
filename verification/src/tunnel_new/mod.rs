//! Tunnel interfaces: the information each hop of a route carries for replies
//! and errors, the providers of routes, error and reply information and
//! symmetric keys, the writers and readers of tunnel frames, and the cache of
//! established tunnels.
use vstd::prelude::*;
use crate::bytes_wr::ByteSource;
use crate::tunnel::TunnelError;

pub mod full;
pub mod info;
pub mod nope;

verus! {

/// Reply or error information of a hop.
pub trait Info {
    /// Whether this info must be cached for reply or error routing.
    fn do_cache(&self) -> bool;

    /// Writes the info in the hop header.
    fn write_in_header(&mut self, w: &mut Vec<u8>) -> Result<(), TunnelError>;

    /// Writes what comes after the content.
    fn write_after(&mut self, w: &mut Vec<u8>) -> Result<(), TunnelError>;
}

/// Reply information.
pub trait RepInfo: Info {
    /// Whether a payload is written after the content (reply route).
    spec fn requires_payload(&self) -> bool;

    /// Whether a payload is written after the content (reply route).
    fn require_additional_payload(&self) -> (r: bool)
        ensures
            r == self.requires_payload(),
    ;

    /// The symmetric key to reply with, if any.
    fn get_reply_key(&self) -> Option<&Vec<u8>>;
}

/// Provider of routes to a destination (of peers `P`).
pub trait RouteProvider<P> {
    /// Whether the provider, in its state, may give `r` as a route to `dest`.
    spec fn gives_route(&self, dest: P, r: Seq<&P>) -> bool;

    /// Whether the provider, in its state, may give `r` as a reply route to
    /// `dest`.
    spec fn gives_reply_route(&self, dest: P, r: Seq<&P>) -> bool;

    /// A route to `dest` (only the destination is used to make it).
    fn new_route(&mut self, dest: &P) -> (r: Vec<&P>)
        ensures
            old(self).gives_route(*dest, r@),
    ;

    /// A reply route (our own address is known to the provider).
    fn new_reply_route(&mut self, dest: &P) -> (r: Vec<&P>)
        ensures
            old(self).gives_reply_route(*dest, r@),
    ;
}

/// Provider of the error infos of a route.
pub trait ErrorProvider<P, EI> {
    /// Whether the provider, in its state, may give the error infos `r` for
    /// `route`.
    spec fn gives_error_infos(&self, route: Seq<&P>, r: Seq<EI>) -> bool;

    /// Error infos for the hops of `route`.
    fn new_error_route(&mut self, route: &[&P]) -> (r: Vec<EI>)
        ensures
            old(self).gives_error_infos(route@, r@),
    ;
}

/// Provider of symmetric keys, writers and readers.
pub trait SymProvider<SSW, SSR> {
    /// The key a symmetric reader reads with.
    spec fn reader_key(r: SSR) -> Seq<u8>;

    fn new_sym_key(&mut self) -> Vec<u8>;

    fn new_sym_writer(&mut self, key: Vec<u8>) -> SSW;

    /// A symmetric reader that reads with `key`.
    fn new_sym_reader(&mut self, key: Vec<u8>) -> (r: SSR)
        ensures
            Self::reader_key(r) == key@,
    ;
}

/// Provider of the reply infos of a route.
pub trait ReplyProvider<P, RI: RepInfo, SSW, SSR>: SymProvider<SSW, SSR> {
    /// Whether the provider, in its state, may give the reply infos `r` for
    /// `route`.
    spec fn gives_replies(&self, route: Seq<&P>, r: Seq<RI>) -> bool;

    /// Reply infos for the hops of `route` (the destination's differs from
    /// the hops').
    fn new_reply(&mut self, route: &[&P]) -> (r: Vec<RI>)
        ensures
            old(self).gives_replies(route@, r@),
    ;
}

/// Writer of an error for a message with no reply and no cache: only an error
/// code.
pub trait TunnelErrorWriter {
    fn write_error(&mut self, w: &mut Vec<u8>, code: usize) -> Result<(), TunnelError>;
}

/// Writer of tunnel frames.
pub trait TunnelWriter {
    /// Writes the state when needed.
    fn write_state(&mut self, w: &mut Vec<u8>) -> Result<(), TunnelError>;

    /// Writes connection info (cache id of the previous peer), between peers.
    fn write_connect_info(&mut self, w: &mut Vec<u8>) -> Result<(), TunnelError>;

    /// Writes the (layered) headers.
    fn write_tunnel_header(&mut self, w: &mut Vec<u8>) -> Result<(), TunnelError>;

    /// Writes content, returns how many bytes of it.
    fn write_tunnel_into(&mut self, w: &mut Vec<u8>, cont: &[u8]) -> Result<usize, TunnelError>;

    /// Writes all the content.
    fn write_tunnel_all_into(&mut self, w: &mut Vec<u8>, cont: &[u8]) -> Result<(), TunnelError>;

    /// Flushes.
    fn flush_tunnel_into(&mut self, w: &mut Vec<u8>) -> Result<(), TunnelError>;

    /// Ends the frame.
    fn write_tunnel_end(&mut self, w: &mut Vec<u8>) -> Result<(), TunnelError>;
}

/// Reader of tunnel frames.
pub trait TunnelReader {
}

/// Reader of tunnel frames with no reply.
pub trait TunnelReaderNoRep {
    fn read_state(&mut self, r: &mut ByteSource) -> Result<(), TunnelError>;

    fn read_connect_info(&mut self, r: &mut ByteSource) -> Result<(), TunnelError>;

    fn read_tunnel_header(&mut self, r: &mut ByteSource) -> Result<(), TunnelError>;

    fn read_dest_info(&mut self, r: &mut ByteSource) -> Result<(), TunnelError>;
}

/// A tunnel with no reply: makes readers, writers, proxy writers and
/// destination readers.
pub trait TunnelNoRep {
    /// peers
    type P;
    /// tunnel writer
    type TW: TunnelWriter;
    /// writer
    type W;
    /// reader (reads all kinds of message)
    type TR;
    /// proxy tunnel writer
    type PTW;
    /// proxy writer
    type PW;
    /// destination reader
    type DR;

    fn new_reader(&mut self) -> Self::TR;

    fn new_tunnel_writer(&mut self, dest: &Self::P) -> Self::TW;

    fn new_writer(&mut self, dest: &Self::P) -> Self::W;

    /// Whether `tw` is a tunnel writer this tunnel, in its state, may make
    /// over `route`.
    spec fn writer_over(&self, route: Seq<&Self::P>, tw: Self::TW) -> bool;

    fn new_tunnel_writer_with_route(&mut self, route: &[&Self::P]) -> (r: Self::TW)
        ensures
            old(self).writer_over(route@, r),
    ;

    fn new_writer_with_route(&mut self, route: &[&Self::P]) -> Self::W;

    fn new_proxy_writer(&mut self, r: Self::TR) -> Result<Self::PTW, TunnelError>;

    fn new_dest_reader(&mut self, r: Self::TR) -> Result<Self::DR, TunnelError>;
}

/// Cache of established tunnels (symmetric writers `SSW` and readers `SSR`),
/// indexed by cache ids.
pub trait TunnelCache<SSW, SSR> {
    /// Whether the cache keeps anything (a cache that keeps nothing fails to
    /// put or get, with `NoCache`, and has nothing).
    spec fn keeps_tunnels(&self) -> bool;

    /// Whether a writer of id `k` is cached.
    spec fn has_symw(&self, k: Seq<u8>) -> bool;

    /// Whether a reader of id `k` is cached.
    spec fn has_symr(&self, k: Seq<u8>) -> bool;

    /// Caches a writer, returns its id.
    fn put_symw_tunnel(&mut self, w: SSW) -> (r: Result<Vec<u8>, TunnelError>)
        ensures
            !old(self).keeps_tunnels() ==> r matches Err(TunnelError::NoCache),
    ;

    /// The writer of id `k`.
    fn get_symw_tunnel(&mut self, k: &[u8]) -> (r: Result<&mut SSW, TunnelError>)
        ensures
            !old(self).keeps_tunnels() ==> r matches Err(TunnelError::NoCache),
            r is Ok <==> old(self).has_symw(k@),
    ;

    /// Whether a writer of id `k` is cached.
    fn has_symw_tunnel(&mut self, k: &[u8]) -> (r: bool)
        ensures
            !old(self).keeps_tunnels() ==> !r,
            r == old(self).has_symw(k@),
    {
        self.get_symw_tunnel(k).is_ok()
    }

    /// Caches a reader, returns its id.
    fn put_symr_tunnel(&mut self, r: SSR) -> (res: Result<Vec<u8>, TunnelError>)
        ensures
            !old(self).keeps_tunnels() ==> res matches Err(TunnelError::NoCache),
    ;

    /// The reader of id `k`.
    fn get_symr_tunnel(&mut self, k: &[u8]) -> (r: Result<&mut SSR, TunnelError>)
        ensures
            !old(self).keeps_tunnels() ==> r matches Err(TunnelError::NoCache),
            r is Ok <==> old(self).has_symr(k@),
    ;

    /// Whether a reader of id `k` is cached.
    fn has_symr_tunnel(&mut self, k: &[u8]) -> (r: bool)
        ensures
            !old(self).keeps_tunnels() ==> !r,
            r == old(self).has_symr(k@),
    {
        self.get_symr_tunnel(k).is_ok()
    }

    /// A new cache id.
    fn new_cache_id(&mut self) -> (r: Vec<u8>)
        ensures
            !old(self).keeps_tunnels() ==> r@.len() == 0,
    ;
}

} // verus!
