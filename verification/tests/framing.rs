use mydht_base::bytes_wr::{
    plain_b_read, plain_b_write, BWRImplR, BWRImplW, ByteSource, BwrError, BytesWR, EscapeTerm, SizedWindows,
    SizedWindowsParams, VoidRead, VoidWrite,
};

/// Windows of two bytes, sizes not written.
struct Two;
impl SizedWindowsParams for Two {
    const INIT_SIZE: usize = 2;
    const GROWTH_RATIO: Option<(usize, usize)> = None;
    const WRITE_SIZE: bool = false;
}

/// Windows of two bytes, sizes written.
struct TwoSized;
impl SizedWindowsParams for TwoSized {
    const INIT_SIZE: usize = 2;
    const GROWTH_RATIO: Option<(usize, usize)> = None;
    const WRITE_SIZE: bool = true;
}

/// Windows doubling from two bytes.
struct Doubling;
impl SizedWindowsParams for Doubling {
    const INIT_SIZE: usize = 2;
    const GROWTH_RATIO: Option<(usize, usize)> = Some((2, 1));
    const WRITE_SIZE: bool = false;
}

fn write_framed<B: BytesWR>(mut b: B, parts: &[&[u8]]) -> Vec<u8> {
    let mut w = Vec::new();
    for p in parts {
        assert_eq!(b.b_write(&mut w, p).ok(), Some(p.len()));
    }
    assert!(b.end_write(&mut w).is_ok());
    w
}

/// Reads exactly `n` content bytes, in reads of at most `chunk`, then ends.
fn read_framed<B: BytesWR>(mut b: B, bytes: Vec<u8>, n: usize, chunk: usize) -> (Vec<u8>, ByteSource) {
    let mut r = ByteSource::new(bytes);
    let mut out = Vec::new();
    while out.len() < n {
        let want = std::cmp::min(chunk, n - out.len());
        let mut buf = vec![0u8; want];
        let got = b.b_read(&mut r, &mut buf).ok().unwrap();
        assert!(got > 0);
        out.extend_from_slice(&buf[..got]);
    }
    assert!(b.end_read(&mut r).is_ok());
    (out, r)
}

#[test]
fn escape_term_writes_escaped_content_and_marker() {
    let w = write_framed(EscapeTerm::new(0), &[&[1, 0, 2]]);
    assert_eq!(w, vec![1, 0, 0, 2, 0, 1]);
    let w = write_framed(EscapeTerm::new(5), &[&[5, 7], &[5]]);
    assert_eq!(w, vec![5, 5, 7, 5, 5, 5, 0]);
}

#[test]
fn escape_term_reads_back_until_marker() {
    let mut bytes = write_framed(EscapeTerm::new(0), &[&[1, 0, 2], &[0, 0]]);
    bytes.extend_from_slice(&[9, 9]);
    let mut e = EscapeTerm::new(0);
    let mut r = ByteSource::new(bytes);
    let mut buf = [7u8; 16];
    let n = e.b_read(&mut r, &mut buf).ok().unwrap();
    assert_eq!(&buf[..n], &[1, 0, 2, 0, 0]);
    assert_eq!(e.b_read(&mut r, &mut buf).ok(), Some(0));
    // what follows the content is left to others
    assert_eq!(r.remaining(), 2);
    assert_eq!(r.read_byte(), Some(9));
}

#[test]
fn escape_term_small_reads() {
    let bytes = write_framed(EscapeTerm::new(3), &[&[3, 3, 4, 3]]);
    let (out, mut r) = read_framed(EscapeTerm::new(3), bytes, 4, 1);
    assert_eq!(out, vec![3, 3, 4, 3]);
    // ending a read leaves the end marker in the stream
    assert_eq!(r.remaining(), 2);
    assert_eq!(r.read_byte(), Some(3));
}

#[test]
fn sized_windows_writes_windows_markers_and_padding() {
    let w = write_framed(SizedWindows::new(Two), &[b"abc"]);
    assert_eq!(w, vec![97, 98, 1, 99, 0, 0]);
    let w = write_framed(SizedWindows::new(Two), &[b"ab"]);
    assert_eq!(w, vec![97, 98, 0]);
    let w = write_framed(SizedWindows::new(Two), &[]);
    assert_eq!(w, vec![0, 0, 0]);
}

#[test]
fn sized_windows_writes_sizes() {
    let w = write_framed(SizedWindows::new(TwoSized), &[b"abc"]);
    assert_eq!(
        w,
        vec![2, 0, 0, 0, 0, 0, 0, 0, 97, 98, 1, 2, 0, 0, 0, 0, 0, 0, 0, 99, 0, 0]
    );
}

#[test]
fn sized_windows_grow() {
    let w = write_framed(SizedWindows::new(Doubling), &[b"abcdefg"]);
    assert_eq!(
        w,
        vec![97, 98, 1, 99, 100, 101, 102, 1, 103, 0, 0, 0, 0, 0, 0, 0, 0]
    );
}

#[test]
fn sized_windows_round_trip() {
    let content: Vec<u8> = (0..50u8).collect();
    for chunk in [1usize, 3, 7, 64] {
        let bytes = write_framed(SizedWindows::new(Doubling), &[&content[..20], &content[20..]]);
        let (out, r) = read_framed(SizedWindows::new(Doubling), bytes.clone(), content.len(), chunk);
        assert_eq!(out, content);
        assert_eq!(r.remaining(), 0);
        let bytes = write_framed(SizedWindows::new(TwoSized), &[&content]);
        let (out, r) = read_framed(SizedWindows::new(TwoSized), bytes, content.len(), chunk);
        assert_eq!(out, content);
        assert_eq!(r.remaining(), 0);
    }
}

#[test]
fn sized_windows_reads_zero_after_end_marker() {
    let bytes = write_framed(SizedWindows::new(Two), &[b"ab"]);
    let mut s = SizedWindows::new(Two);
    let mut r = ByteSource::new(bytes);
    let mut buf = [0u8; 8];
    assert_eq!(s.b_read(&mut r, &mut buf).ok(), Some(2));
    assert_eq!(&buf[..2], b"ab");
    assert_eq!(s.b_read(&mut r, &mut buf).ok(), Some(0));
    assert_eq!(s.b_read(&mut r, &mut buf).ok(), Some(0));
    assert!(s.end_read(&mut r).is_ok());
}

#[test]
fn sized_windows_missing_window_marker() {
    let mut s = SizedWindows::new(Two);
    let mut r = ByteSource::new(vec![97, 98]);
    let mut buf = [0u8; 2];
    assert_eq!(s.b_read(&mut r, &mut buf).ok(), Some(2));
    let e = s.b_read(&mut r, &mut buf).err().unwrap();
    assert!(matches!(e, BwrError::MissingWindowMarker));
    assert_eq!(e.message(), "No bytes after window size, do not know if ended or repeat");
}

#[test]
fn sized_windows_missing_end_marker() {
    let mut s = SizedWindows::new(Two);
    let mut r = ByteSource::new(vec![97, 98, 1, 99, 0, 5]);
    let mut buf = [0u8; 3];
    assert_eq!(s.b_read(&mut r, &mut buf[..2]).ok(), Some(2));
    assert_eq!(s.b_read(&mut r, &mut buf[2..]).ok(), Some(1));
    let e = s.end_read(&mut r).err().unwrap();
    assert!(matches!(e, BwrError::MissingEndMarker));
    assert_eq!(e.message(), "End read does not find expected terminal 0 of widows");
}

#[test]
fn sized_windows_truncated_size() {
    let mut s = SizedWindows::new(TwoSized);
    let mut r = ByteSource::new(vec![2, 0, 0]);
    let mut buf = [0u8; 2];
    let e = s.b_read(&mut r, &mut buf).err().unwrap();
    assert!(matches!(e, BwrError::UnexpectedEof));
    assert_eq!(e.message(), "failed to fill whole buffer");
}

#[test]
fn bwr_adapters_round_trip() {
    let mut w = BWRImplW::new(EscapeTerm::new(0), vec![42]);
    assert_eq!(w.write(&[1, 0, 2]).ok(), Some(3));
    assert!(w.flush().is_ok());
    assert_eq!(w.write(&[0]).ok(), Some(1));
    assert!(w.finish().is_ok());
    assert_eq!(w.sink, vec![42, 1, 0, 0, 2, 0, 0, 0, 1]);
    let mut src = ByteSource::new(w.sink.clone());
    assert_eq!(src.read_byte(), Some(42));
    let mut r = BWRImplR::new(EscapeTerm::new(0), src);
    let mut buf = [0u8; 2];
    assert_eq!(r.read(&mut buf).ok(), Some(2));
    assert_eq!(buf, [1, 0]);
    assert_eq!(r.read(&mut buf).ok(), Some(2));
    assert_eq!(buf, [2, 0]);
    assert_eq!(r.read(&mut buf).ok(), Some(0));
    assert!(r.finish().is_ok());
}

#[test]
fn bwr_adapters_sized_windows() {
    let mut w = BWRImplW::new(SizedWindows::new(Two), Vec::new());
    assert_eq!(w.write(b"xyz").ok(), Some(3));
    assert!(w.finish().is_ok());
    assert_eq!(w.sink, vec![120, 121, 1, 122, 0, 0]);
    let mut r = BWRImplR::new(SizedWindows::new(Two), ByteSource::new(w.sink.clone()));
    let mut buf = [0u8; 2];
    assert_eq!(r.read(&mut buf).ok(), Some(2));
    assert_eq!(&buf, b"xy");
    assert_eq!(r.read(&mut buf[..1]).ok(), Some(1));
    assert_eq!(buf[0], b'z');
    assert!(r.finish().is_ok());
}

#[test]
fn void_read_and_write() {
    let mut r = VoidRead;
    let mut buf = [3u8; 4];
    assert_eq!(r.read(&mut buf).ok(), Some(0));
    assert_eq!(buf, [3u8; 4]);
    let mut w = VoidWrite;
    assert_eq!(w.write(&[1, 2, 3]).ok(), Some(0));
    assert!(w.flush().is_ok());
}

#[test]
fn byte_source_reads() {
    let mut r = ByteSource::new(vec![1, 2, 3, 4, 5]);
    assert_eq!(r.remaining(), 5);
    assert_eq!(r.position(), 0);
    assert_eq!(r.read_byte(), Some(1));
    let mut buf = [0u8; 3];
    assert_eq!(r.read_up_to(&mut buf, 2), 2);
    assert_eq!(buf, [2, 3, 0]);
    assert_eq!(r.position(), 3);
    assert_eq!(r.read(&mut buf), 2);
    assert_eq!(buf, [4, 5, 0]);
    assert_eq!(r.read(&mut buf), 0);
    assert_eq!(r.read_byte(), None);
}

/// Windows whose growth overflows after the first.
struct Overflowing;
impl SizedWindowsParams for Overflowing {
    const INIT_SIZE: usize = 4;
    const GROWTH_RATIO: Option<(usize, usize)> = Some((usize::MAX, 1));
    const WRITE_SIZE: bool = false;
}

/// Windows whose growth divides by zero.
struct NoDivisor;
impl SizedWindowsParams for NoDivisor {
    const INIT_SIZE: usize = 2;
    const GROWTH_RATIO: Option<(usize, usize)> = Some((1, 0));
    const WRITE_SIZE: bool = false;
}

/// Windows that shrink to nothing after the first.
struct Vanishing;
impl SizedWindowsParams for Vanishing {
    const INIT_SIZE: usize = 2;
    const GROWTH_RATIO: Option<(usize, usize)> = Some((0, 1));
    const WRITE_SIZE: bool = false;
}

#[test]
fn writes_that_window_growth_allows() {
    assert!(SizedWindows::new(Two).can_write(1000));
    assert!(SizedWindows::new(Doubling).can_write(1000));
    assert!(SizedWindows::new(Overflowing).can_write(4));
    assert!(!SizedWindows::new(Overflowing).can_write(5));
    assert!(SizedWindows::new(NoDivisor).can_write(2));
    assert!(!SizedWindows::new(NoDivisor).can_write(3));
    assert!(!SizedWindows::new(Vanishing).can_write(3));
    assert!(EscapeTerm::new(0).can_write(usize::MAX));
}

#[test]
fn reads_that_window_growth_allows() {
    let mut s = SizedWindows::new(NoDivisor);
    let mut r = ByteSource::new(vec![97, 98, 1, 99, 0, 0]);
    assert!(s.can_read(&r));
    let mut buf = [0u8; 2];
    assert_eq!(s.b_read(&mut r, &mut buf).ok(), Some(2));
    // a marker announces a window whose size cannot be computed
    assert_eq!(r.peek(), Some(1));
    assert!(!s.can_read(&r));
    let mut s = SizedWindows::new(NoDivisor);
    let mut r = ByteSource::new(vec![97, 98, 0]);
    assert_eq!(s.b_read(&mut r, &mut buf).ok(), Some(2));
    assert!(s.can_read(&r));
    assert_eq!(s.b_read(&mut r, &mut buf).ok(), Some(0));
    assert!(EscapeTerm::new(0).can_read(&r));
}

#[test]
fn ends_that_the_stream_allows() {
    let mut s = SizedWindows::new(Two);
    let mut r = ByteSource::new(vec![97, 98, 1, 99]);
    let mut buf = [0u8; 3];
    assert_eq!(s.b_read(&mut r, &mut buf[..2]).ok(), Some(2));
    assert_eq!(s.b_read(&mut r, &mut buf[2..]).ok(), Some(1));
    // one byte of padding is missing
    assert!(!s.can_end_read(&r));
    let mut s = SizedWindows::new(Two);
    let mut r = ByteSource::new(vec![97, 98, 1, 99, 0, 0]);
    assert_eq!(s.b_read(&mut r, &mut buf[..2]).ok(), Some(2));
    assert_eq!(s.b_read(&mut r, &mut buf[2..]).ok(), Some(1));
    assert!(s.can_end_read(&r));
    assert!(EscapeTerm::new(0).can_end_read(&r));
}

#[test]
fn byte_source_peek() {
    let mut r = ByteSource::new(vec![4, 5]);
    assert_eq!(r.peek(), Some(4));
    assert_eq!(r.read_byte(), Some(4));
    assert_eq!(r.peek(), Some(5));
    assert_eq!(r.read_byte(), Some(5));
    assert_eq!(r.peek(), None);
}

/// Reads with `b` in reads of at most `chunk` bytes until a read gives 0.
fn read_until_end<B: BytesWR>(b: &mut B, r: &mut ByteSource, chunk: usize) -> Vec<u8> {
    let mut out = Vec::new();
    loop {
        let mut buf = vec![0u8; chunk];
        let got = b.b_read(r, &mut buf).ok().unwrap();
        if got == 0 {
            return out;
        }
        out.extend_from_slice(&buf[..got]);
    }
}

#[test]
fn escape_term_reads_until_end_with_any_buffer() {
    for chunk in [1usize, 2, 3, 16] {
        let mut bytes = write_framed(EscapeTerm::new(7), &[&[7, 1, 7, 7, 2]]);
        bytes.extend_from_slice(&[5, 6]);
        let mut e = EscapeTerm::new(7);
        let mut r = ByteSource::new(bytes);
        assert_eq!(read_until_end(&mut e, &mut r, chunk), vec![7, 1, 7, 7, 2]);
        // the stream is right after the frame
        assert_eq!(r.remaining(), 2);
        assert_eq!(r.read_byte(), Some(5));
    }
}

#[test]
fn escape_term_reads_frames_one_after_the_other() {
    let mut bytes = write_framed(EscapeTerm::new(0), &[&[4, 0]]);
    bytes.extend_from_slice(&write_framed(EscapeTerm::new(0), &[&[1, 2]]));
    let mut e = EscapeTerm::new(0);
    let mut r = ByteSource::new(bytes);
    assert_eq!(read_until_end(&mut e, &mut r, 1), vec![4, 0]);
    assert!(e.end_read(&mut r).is_ok());
    assert!(!e.started && !e.escaped && !e.ended && e.esc == 0);
    // the next frame starts with a byte that is not the escape byte
    assert_eq!(read_until_end(&mut e, &mut r, 1), vec![1, 2]);
    assert_eq!(r.remaining(), 0);
}

#[test]
fn sized_windows_reads_until_end_with_padding() {
    let content: Vec<u8> = (1..=7u8).collect();
    for chunk in [1usize, 2, 5, 64] {
        let mut bytes = write_framed(SizedWindows::new(Doubling), &[&content]);
        bytes.extend_from_slice(&[9]);
        let mut s = SizedWindows::new(Doubling);
        let mut r = ByteSource::new(bytes);
        // windows of 2, 4 then 8 bytes: the last one holds 1 byte and 7 zeros
        let mut expected = content.clone();
        expected.extend_from_slice(&[0; 7]);
        assert_eq!(read_until_end(&mut s, &mut r, chunk), expected);
        assert_eq!(r.remaining(), 1);
        assert!(s.end_read(&mut r).is_ok());
        assert_eq!(r.remaining(), 1);
    }
}

#[test]
fn byte_source_refill_keeps_what_is_left() {
    let mut r = ByteSource::new(vec![1, 2, 3]);
    assert_eq!(r.read_byte(), Some(1));
    assert_eq!(r.refill(&[4, 5]), 4);
    let mut buf = [0u8; 8];
    assert_eq!(r.read(&mut buf), 4);
    assert_eq!(&buf[..4], &[2, 3, 4, 5]);
    assert_eq!(BwrError::WindowOverflow.message(), "Window size overflow");
}

#[test]
fn plain_reads_and_writes_take_content_as_it_is() {
    // the header of sized windows with sizes written, then the content unframed
    let mut s = SizedWindows::new(TwoSized);
    let mut w = vec![9];
    assert_eq!(plain_b_write(&mut s, &mut w, &[5, 6, 7]).ok(), Some(3));
    assert_eq!(w, vec![9, 2, 0, 0, 0, 0, 0, 0, 0, 5, 6, 7]);
    assert!(s.has_started());
    assert_eq!(plain_b_write(&mut s, &mut w, &[8]).ok(), Some(1));
    assert_eq!(w.len(), 13);
    let mut s = SizedWindows::new(TwoSized);
    let mut r = ByteSource::new(w[1..].to_vec());
    let mut buf = [0u8; 3];
    assert_eq!(plain_b_read(&mut s, &mut r, &mut buf).ok(), Some(3));
    assert_eq!(buf, [5, 6, 7]);
    assert_eq!(plain_b_read(&mut s, &mut r, &mut buf).ok(), Some(1));
    assert_eq!(buf[0], 8);
    assert_eq!(plain_b_read(&mut s, &mut r, &mut buf).ok(), Some(0));
}
