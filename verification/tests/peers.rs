use mydht_base::bytes_wr::ByteSource;
use mydht_base::peer::{
    NoShadow, PeerPriority, PeerState, PeerStateChange, Shadow, ShadowReadOnce, ShadowWriteOnce,
};

#[test]
fn priority_of_states() {
    assert_eq!(PeerState::<()>::Refused.get_priority(), PeerPriority::Unchecked);
    assert_eq!(PeerState::<()>::Online(PeerPriority::Priority(3)).get_priority(), PeerPriority::Priority(3));
    assert_eq!(PeerState::<()>::Blocked(PeerPriority::Normal).get_priority(), PeerPriority::Normal);
    assert_eq!(PeerState::<()>::Offline(PeerPriority::Normal).get_priority(), PeerPriority::Normal);
    assert_eq!(
        PeerState::Ping(vec![1, 2], (), PeerPriority::Priority(1)).get_priority(),
        PeerPriority::Priority(1)
    );
}

#[test]
fn state_changes_keep_priority() {
    let s: PeerState<u8> = PeerState::Offline(PeerPriority::Priority(7));
    assert!(matches!(s.new_state(PeerStateChange::Online), PeerState::Online(PeerPriority::Priority(7))));
    assert!(matches!(s.new_state(PeerStateChange::Blocked), PeerState::Blocked(PeerPriority::Priority(7))));
    assert!(matches!(s.new_state(PeerStateChange::Offline), PeerState::Offline(PeerPriority::Priority(7))));
    assert!(matches!(s.new_state(PeerStateChange::Refused), PeerState::Refused));
    match s.new_state(PeerStateChange::Ping(vec![9], 4)) {
        PeerState::Ping(chal, handle, p) => {
            assert_eq!(chal, vec![9]);
            assert_eq!(handle, 4);
            assert_eq!(p, PeerPriority::Priority(7));
        }
        _ => panic!("expected a ping state"),
    }
    let refused: PeerState<u8> = PeerState::Refused;
    assert!(matches!(refused.new_state(PeerStateChange::Online), PeerState::Online(PeerPriority::Unchecked)));
}

#[test]
fn no_shadow_passes_bytes() {
    let mut s = NoShadow;
    let mut w = vec![1];
    assert!(s.shadow_header(&mut w, &()).is_ok());
    assert_eq!(s.shadow_iter(&[2, 3], &mut w, &()).ok(), Some(2));
    assert_eq!(s.shadow_iter_sim(&[9], &[4], &mut w, &()).ok(), Some(1));
    assert!(s.shadow_flush(&mut w, &()).is_ok());
    assert!(s.shadow_sim_flush(&mut w, &()).is_ok());
    assert_eq!(w, vec![1, 2, 3, 4]);
    assert!(s.shadow_simkey(&()).is_empty());
    let mut r = ByteSource::new(vec![5, 6, 7]);
    assert!(s.read_shadow_header(&mut r).is_ok());
    let mut buf = [0u8; 2];
    assert_eq!(s.read_shadow_iter(&mut r, &mut buf, &()).ok(), Some(2));
    assert_eq!(buf, [5, 6]);
    assert_eq!(s.read_shadow_iter_sim(&[1], &mut r, &mut buf, &()).ok(), Some(1));
    assert_eq!(buf[0], 7);
    <NoShadow as Shadow>::default_message_mode();
    <NoShadow as Shadow>::default_auth_mode();
    <NoShadow as Shadow>::default_head_mode();
}

#[test]
fn shadow_once_writer_and_reader() {
    let mut w = ShadowWriteOnce::new(NoShadow, Vec::new(), ());
    assert!(!w.header_written);
    assert_eq!(w.write(b"ab").ok(), Some(2));
    assert!(w.header_written);
    assert_eq!(w.write(b"c").ok(), Some(1));
    assert!(w.flush().is_ok());
    assert_eq!(w.sink, b"abc".to_vec());
    let mut r = ShadowReadOnce::new(NoShadow, ByteSource::new(w.sink.clone()));
    assert!(r.mode.is_none());
    let mut buf = [0u8; 8];
    assert_eq!(r.read(&mut buf).ok(), Some(3));
    assert!(r.mode.is_some());
    assert_eq!(&buf[..3], b"abc");
    assert_eq!(r.read(&mut buf).ok(), Some(0));
}

use mydht_base::peer::{MShadowWriteOnce, ShadowError, ShadowWriteOnceL};

/// Adds a constant to each byte; its header is the constant.
struct AddShadow(u8);

impl Shadow for AddShadow {
    type ShadowMode = ();
    fn header_step(&self, _: ()) -> Result<(Self, vstd::seq::Seq<u8>), ShadowError> {
        unreachable!()
    }
    fn iter_step(&self, _: vstd::seq::Seq<u8>, _: ()) -> Result<(Self, vstd::seq::Seq<u8>, usize), ShadowError> {
        unreachable!()
    }
    fn flush_step(&self, _: ()) -> Result<(Self, vstd::seq::Seq<u8>), ShadowError> {
        unreachable!()
    }
    fn read_header_step(&self, _: vstd::seq::Seq<u8>) -> Result<(Self, (), vstd::seq::Seq<u8>), ShadowError> {
        unreachable!()
    }
    fn read_iter_step(
        &self,
        _: vstd::seq::Seq<u8>,
        _: usize,
        _: (),
    ) -> Result<(Self, vstd::seq::Seq<u8>, vstd::seq::Seq<u8>), ShadowError> {
        unreachable!()
    }
    fn shadow_header(&mut self, w: &mut Vec<u8>, _: &()) -> Result<(), ShadowError> {
        w.push(self.0);
        Ok(())
    }
    fn shadow_iter(&mut self, m: &[u8], w: &mut Vec<u8>, _: &()) -> Result<usize, ShadowError> {
        for b in m {
            w.push(b.wrapping_add(self.0));
        }
        Ok(m.len())
    }
    fn shadow_flush(&mut self, w: &mut Vec<u8>, _: &()) -> Result<(), ShadowError> {
        w.push(255);
        Ok(())
    }
    fn read_shadow_header(&mut self, r: &mut ByteSource) -> Result<(), ShadowError> {
        r.read_byte().map(|_| ()).ok_or(ShadowError::Failed)
    }
    fn read_shadow_iter(&mut self, r: &mut ByteSource, buf: &mut [u8], _: &()) -> Result<usize, ShadowError> {
        Ok(r.read(buf))
    }
    fn default_message_mode() {}
    fn default_auth_mode() {}
    fn default_head_mode() {}
    fn shadow_iter_sim(&mut self, _: &[u8], m: &[u8], w: &mut Vec<u8>, mode: &()) -> Result<usize, ShadowError> {
        self.shadow_iter(m, w, mode)
    }
    fn read_shadow_iter_sim(&mut self, _: &[u8], r: &mut ByteSource, buf: &mut [u8], mode: &()) -> Result<usize, ShadowError> {
        self.read_shadow_iter(r, buf, mode)
    }
    fn shadow_sim_flush(&mut self, w: &mut Vec<u8>, mode: &()) -> Result<(), ShadowError> {
        self.shadow_flush(w, mode)
    }
    fn shadow_simkey(&mut self, _: &()) -> Vec<u8> {
        vec![self.0]
    }
}

#[test]
fn layered_writer_shadows_through_each_layer() {
    let mut m = MShadowWriteOnce::new(vec![AddShadow(1), AddShadow(10)], Vec::new(), (), vec![false, false]);
    assert_eq!(m.write(&[0, 5]).ok(), Some(2));
    assert_eq!(m.written_head, vec![true, true]);
    // header of the outer layer (10), the inner header 1 shadowed by it (11),
    // then the content shadowed twice
    assert_eq!(m.sink, vec![10, 11, 11, 16]);
    assert_eq!(m.write(&[1]).ok(), Some(1));
    assert_eq!(m.sink, vec![10, 11, 11, 16, 12]);
    assert!(m.flush().is_ok());
    // the inner flush marker shadowed by the outer layer, then the outer one
    assert_eq!(m.sink, vec![10, 11, 11, 16, 12, 9, 255]);
}

#[test]
fn layered_writer_with_one_layer() {
    let mut m = MShadowWriteOnce::new(vec![AddShadow(2)], vec![7], (), vec![true]);
    assert_eq!(m.write(&[1]).ok(), Some(1));
    assert_eq!(m.sink, vec![7, 3]);
    assert!(m.flush().is_ok());
    assert_eq!(m.sink, vec![7, 3, 255]);
}

#[test]
fn once_writer_with_flag() {
    let mut w = ShadowWriteOnceL::new(AddShadow(3), Vec::new(), (), true);
    assert!(w.is_first);
    assert_eq!(w.write(&[1, 2]).ok(), Some(2));
    assert!(w.header_written);
    assert!(w.flush().is_ok());
    assert_eq!(w.sink, vec![3, 4, 5, 255]);
}


#[test]
fn released_ping_is_answered_false() {
    let s: PeerState<u8> = PeerState::Ping(vec![9], 42, PeerPriority::Normal);
    assert_eq!(s.release(), Some((42, false)));
    let s: PeerState<u8> = PeerState::Online(PeerPriority::Normal);
    assert_eq!(s.release(), None);
}

#[test]
fn shadow_once_writer_writes_its_header_once() {
    let mut w = ShadowWriteOnce::new(AddShadow(3), vec![], ());
    assert_eq!(w.write(&[1]).ok(), Some(1));
    assert!(w.flush().is_ok());
    assert_eq!(w.write(&[2, 4]).ok(), Some(2));
    // the header (3) once, before the first chunk; each chunk shadowed; the
    // flush only ends the shadowing (255)
    assert_eq!(w.sink, vec![3, 4, 255, 5, 7]);
}

#[test]
fn shadow_once_writer_flush_before_any_write() {
    let mut w = ShadowWriteOnce::new(AddShadow(3), vec![], ());
    // a flush before any write runs only the shadow's flush: no header yet
    assert!(w.flush().is_ok());
    assert!(!w.header_written);
    assert_eq!(w.write(&[1]).ok(), Some(1));
    assert!(w.flush().is_ok());
    assert_eq!(w.write(&[2]).ok(), Some(1));
    assert_eq!(w.sink, vec![255, 3, 4, 255, 5]);
}
