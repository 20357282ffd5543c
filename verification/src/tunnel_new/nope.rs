//! A tunnel part that does nothing, for instance when there is no error
//! handling or no reply.
use vstd::prelude::*;
use std::marker::PhantomData;
use crate::bytes_wr::ByteSource;
use crate::tunnel::TunnelError;
use super::{
    Info,
    RepInfo,
    TunnelWriter,
    TunnelErrorWriter,
    TunnelReaderNoRep,
    TunnelCache,
    TunnelNoRep,
};

verus! {

/// No info, no writing, no reading, no cache.
#[derive(Clone, Copy)]
pub struct Nope;

impl Info for Nope {
    fn do_cache(&self) -> (r: bool)
        ensures
            !r,
    {
        false
    }

    fn write_in_header(&mut self, w: &mut Vec<u8>) -> (r: Result<(), TunnelError>)
        ensures
            r is Ok,
            final(w)@ == old(w)@,
    {
        Ok(())
    }

    fn write_after(&mut self, w: &mut Vec<u8>) -> (r: Result<(), TunnelError>)
        ensures
            r is Ok,
            final(w)@ == old(w)@,
    {
        Ok(())
    }
}

impl RepInfo for Nope {
    open spec fn requires_payload(&self) -> bool {
        false
    }

    fn require_additional_payload(&self) -> (r: bool)
        ensures
            !r,
    {
        false
    }

    fn get_reply_key(&self) -> (r: Option<&Vec<u8>>)
        ensures
            r is None,
    {
        None
    }
}

impl TunnelWriter for Nope {
    fn write_state(&mut self, w: &mut Vec<u8>) -> (r: Result<(), TunnelError>)
        ensures
            r is Ok,
            final(w)@ == old(w)@,
    {
        Ok(())
    }

    fn write_connect_info(&mut self, w: &mut Vec<u8>) -> (r: Result<(), TunnelError>)
        ensures
            r is Ok,
            final(w)@ == old(w)@,
    {
        Ok(())
    }

    fn write_tunnel_header(&mut self, w: &mut Vec<u8>) -> (r: Result<(), TunnelError>)
        ensures
            r is Ok,
            final(w)@ == old(w)@,
    {
        Ok(())
    }

    /// Takes the whole content and writes nothing.
    fn write_tunnel_into(&mut self, w: &mut Vec<u8>, cont: &[u8]) -> (r: Result<usize, TunnelError>)
        ensures
            r == Ok::<usize, TunnelError>(cont@.len() as usize),
            final(w)@ == old(w)@,
    {
        Ok(cont.len())
    }

    fn write_tunnel_all_into(&mut self, w: &mut Vec<u8>, cont: &[u8]) -> (r: Result<(), TunnelError>)
        ensures
            r is Ok,
            final(w)@ == old(w)@,
    {
        Ok(())
    }

    fn flush_tunnel_into(&mut self, w: &mut Vec<u8>) -> (r: Result<(), TunnelError>)
        ensures
            r is Ok,
            final(w)@ == old(w)@,
    {
        Ok(())
    }

    fn write_tunnel_end(&mut self, w: &mut Vec<u8>) -> (r: Result<(), TunnelError>)
        ensures
            r is Ok,
            final(w)@ == old(w)@,
    {
        Ok(())
    }
}

impl TunnelErrorWriter for Nope {
    fn write_error(&mut self, w: &mut Vec<u8>, code: usize) -> (r: Result<(), TunnelError>)
        ensures
            r is Ok,
            final(w)@ == old(w)@,
    {
        Ok(())
    }
}

impl TunnelReaderNoRep for Nope {
    fn read_state(&mut self, r: &mut ByteSource) -> (res: Result<(), TunnelError>)
        ensures
            res is Ok,
            final(r)@ == old(r)@,
    {
        Ok(())
    }

    fn read_connect_info(&mut self, r: &mut ByteSource) -> (res: Result<(), TunnelError>)
        ensures
            res is Ok,
            final(r)@ == old(r)@,
    {
        Ok(())
    }

    fn read_tunnel_header(&mut self, r: &mut ByteSource) -> (res: Result<(), TunnelError>)
        ensures
            res is Ok,
            final(r)@ == old(r)@,
    {
        Ok(())
    }

    fn read_dest_info(&mut self, r: &mut ByteSource) -> (res: Result<(), TunnelError>)
        ensures
            res is Ok,
            final(r)@ == old(r)@,
    {
        Ok(())
    }
}

/// Nothing is cached.
impl<SSW, SSR> TunnelCache<SSW, SSR> for Nope {
    open spec fn keeps_tunnels(&self) -> bool {
        false
    }

    open spec fn has_symw(&self, k: Seq<u8>) -> bool {
        false
    }

    open spec fn has_symr(&self, k: Seq<u8>) -> bool {
        false
    }

    fn put_symw_tunnel(&mut self, w: SSW) -> (r: Result<Vec<u8>, TunnelError>)
    {
        Err(TunnelError::NoCache)
    }

    fn get_symw_tunnel(&mut self, k: &[u8]) -> (r: Result<&mut SSW, TunnelError>)
    {
        Err(TunnelError::NoCache)
    }

    fn has_symw_tunnel(&mut self, k: &[u8]) -> (r: bool)
    {
        false
    }

    fn put_symr_tunnel(&mut self, r: SSR) -> (res: Result<Vec<u8>, TunnelError>)
    {
        Err(TunnelError::NoCache)
    }

    fn get_symr_tunnel(&mut self, k: &[u8]) -> (r: Result<&mut SSR, TunnelError>)
    {
        Err(TunnelError::NoCache)
    }

    fn has_symr_tunnel(&mut self, k: &[u8]) -> (r: bool)
    {
        false
    }

    fn new_cache_id(&mut self) -> (r: Vec<u8>)
    {
        Vec::new()
    }
}

/// A tunnel (of peers `P`) whose readers and writers are all `Nope`.
pub struct TunnelNope<P>(pub PhantomData<P>);

impl<P> TunnelNope<P> {
    pub fn new() -> (r: Self) {
        TunnelNope(PhantomData)
    }
}

impl<P> TunnelNoRep for TunnelNope<P> {
    type P = P;
    type TW = Nope;
    type W = Nope;
    type TR = Nope;
    type PTW = Nope;
    type PW = Nope;
    type DR = Nope;

    fn new_reader(&mut self) -> (r: Nope) {
        Nope
    }

    fn new_tunnel_writer(&mut self, dest: &P) -> (r: Nope) {
        Nope
    }

    fn new_writer(&mut self, dest: &P) -> (r: Nope) {
        Nope
    }

    /// Every writer is `Nope`, whatever the route.
    open spec fn writer_over(&self, route: Seq<&P>, tw: Nope) -> bool {
        true
    }

    fn new_tunnel_writer_with_route(&mut self, route: &[&P]) -> (r: Nope) {
        Nope
    }

    fn new_writer_with_route(&mut self, route: &[&P]) -> (r: Nope) {
        Nope
    }

    fn new_proxy_writer(&mut self, r: Nope) -> (res: Result<Nope, TunnelError>)
        ensures
            res is Ok,
    {
        Ok(Nope)
    }

    fn new_dest_reader(&mut self, r: Nope) -> (res: Result<Nope, TunnelError>)
        ensures
            res is Ok,
    {
        Ok(Nope)
    }
}

} // verus!
