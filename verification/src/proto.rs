//! The framed exec protocol between host and guest.
//!
//! A request is its length as four bytes, the most significant first, and
//! the command. A response is one byte of exit code, the length of the
//! output in the same form, and the output.
use crate::bytes;
use crate::seqs;
use crate::text;
use vstd::prelude::*;

verus! {

/// Flush the guest's file systems.
pub const QUIESCE: &'static str = "__quiesce__";

/// Flush and power the machine off.
pub const POWEROFF: &'static str = "__poweroff__";

/// Opens a frame that replaces a directory tree; the target, a NUL and a
/// gzipped tar follow.
pub const SYNCTREE_PREFIX: &'static str = "__synctree__\0";

/// The bytes of a text.
pub open spec fn wire(s: Seq<char>) -> Seq<u8> {
    vstd::utf8::encode_utf8(s)
}

/// A sync-tree frame.
pub open spec fn synctree(target: Seq<char>, gz_tar: Seq<u8>) -> Seq<u8> {
    wire(SYNCTREE_PREFIX@) + wire(target) + seq![0u8] + gz_tar
}

/// The length of a payload as it goes over the wire: its last 32 bits.
pub open spec fn wire_len(n: nat) -> nat {
    n % 0x1_0000_0000
}

/// A request frame.
pub open spec fn request(cmd: Seq<u8>) -> Seq<u8> {
    bytes::be32(wire_len(cmd.len())) + cmd
}

/// A response frame.
pub open spec fn response(code: u8, out: Seq<u8>) -> Seq<u8> {
    seq![code] + bytes::be32(wire_len(out.len())) + out
}

/// What is known of a frame from the bytes read so far.
pub enum Received<T> {
    /// This many bytes are to be read before more is known.
    Need(u64),
    /// The frame is complete.
    Complete(T),
}

pub fn synctree_frame(target: &str, gz_tar: &[u8]) -> (frame: Vec<u8>)
    ensures
        frame@ == synctree(target@, gz_tar@),
{
    let mut frame: Vec<u8> = Vec::new();
    frame.extend_from_slice(SYNCTREE_PREFIX.as_bytes());
    frame.extend_from_slice(target.as_bytes());
    frame.push(0);
    frame.extend_from_slice(gz_tar);
    assert(frame@ =~= synctree(target@, gz_tar@));
    frame
}

fn wire_length(n: usize) -> (r: u32)
    ensures
        r == wire_len(n as nat),
{
    ((n as u64) % 0x1_0000_0000u64) as u32
}

/// Appends the request frame of `cmd`.
pub fn send_request(w: &mut Vec<u8>, cmd: &[u8])
    ensures
        final(w)@ == old(w)@ + request(cmd@),
{
    bytes::push_be32(w, wire_length(cmd.len()));
    w.extend_from_slice(cmd);
    assert(w@ =~= old(w)@ + request(cmd@));
}

/// Appends a response frame.
pub fn write_response(w: &mut Vec<u8>, code: u8, out: &[u8])
    ensures
        final(w)@ == old(w)@ + response(code, out@),
{
    w.push(code);
    bytes::push_be32(w, wire_length(out.len()));
    w.extend_from_slice(out);
    assert(w@ =~= old(w)@ + response(code, out@));
}

/// A request frame read from `b`, bytes behind it left alone.
pub open spec fn decode_request(b: Seq<u8>) -> Received<Seq<u8>> {
    if b.len() < 4 {
        Received::Need((4 - b.len()) as u64)
    } else {
        let n = bytes::from_be32(b.take(4));
        if b.len() < 4 + n {
            Received::Need((4 + n - b.len()) as u64)
        } else {
            Received::Complete(b.subrange(4, 4 + n as int))
        }
    }
}

/// A response frame read from `b`, bytes behind it left alone.
pub open spec fn decode_response(b: Seq<u8>) -> Received<(u8, Seq<u8>)> {
    if b.len() < 5 {
        Received::Need((5 - b.len()) as u64)
    } else {
        let n = bytes::from_be32(b.subrange(1, 5));
        if b.len() < 5 + n {
            Received::Need((5 + n - b.len()) as u64)
        } else {
            Received::Complete((b[0], b.subrange(5, 5 + n as int)))
        }
    }
}

/// Reads a request frame from the bytes received so far.
pub fn read_request(b: &[u8]) -> (r: Received<Vec<u8>>)
    ensures
        match r {
            Received::Need(n) => decode_request(b@) == Received::<Seq<u8>>::Need(n),
            Received::Complete(cmd) => decode_request(b@) == Received::Complete(cmd@),
        },
{
    if b.len() < 4 {
        return Received::Need((4 - b.len()) as u64);
    }
    let n = bytes::read_be32(b, 0);
    assert(b@.take(4) =~= b@.subrange(0, 4));
    let have = b.len() as u64;
    if have < 4 + n as u64 {
        return Received::Need(4 + n as u64 - have);
    }
    Received::Complete(bytes::slice_of(b, 4, 4 + n as usize))
}

/// Reads a response frame from the bytes received so far.
pub fn read_response(b: &[u8]) -> (r: Received<(u8, Vec<u8>)>)
    ensures
        match r {
            Received::Need(n) => decode_response(b@) == Received::<(u8, Seq<u8>)>::Need(n),
            Received::Complete((code, out)) => decode_response(b@) == Received::Complete(
                (code, out@),
            ),
        },
{
    if b.len() < 5 {
        return Received::Need((5 - b.len()) as u64);
    }
    let n = bytes::read_be32(b, 1);
    let have = b.len() as u64;
    if have < 5 + n as u64 {
        return Received::Need(5 + n as u64 - have);
    }
    Received::Complete((b[0], bytes::slice_of(b, 5, 5 + n as usize)))
}

/// A request that is sent is read back, whatever follows it on the channel.
pub proof fn request_round_trip(cmd: Seq<u8>, rest: Seq<u8>)
    requires
        cmd.len() <= u32::MAX,
    ensures
        decode_request(request(cmd) + rest) == Received::Complete(cmd),
{
    let b = request(cmd) + rest;
    bytes::be32_round_trip(cmd.len());
    assert(b.take(4) =~= bytes::be32(cmd.len()));
    assert(b.subrange(4, 4 + cmd.len() as int) =~= cmd);
}

/// A response that is sent is read back, whatever follows it on the channel.
pub proof fn response_round_trip(code: u8, out: Seq<u8>, rest: Seq<u8>)
    requires
        out.len() <= u32::MAX,
    ensures
        decode_response(response(code, out) + rest) == Received::Complete((code, out)),
{
    let b = response(code, out) + rest;
    assert(wire_len(out.len()) == out.len());
    let h = bytes::be32(out.len());
    assert(h.len() == 4 && bytes::from_be32(h) == out.len()) by {
        bytes::be32_round_trip(out.len());
    }
    assert(b =~= seq![code] + h + out + rest);
    assert(b.subrange(1, 5) =~= h);
    assert(b.subrange(5, 5 + out.len() as int) =~= out);
}

/// A reader that has part of a request asks for more, and never for more
/// than the request holds.
pub proof fn request_in_parts(cmd: Seq<u8>, k: int)
    requires
        cmd.len() <= u32::MAX,
        0 <= k < request(cmd).len(),
    ensures
        match decode_request(request(cmd).take(k)) {
            Received::Need(n) => 0 < n && k + n <= request(cmd).len(),
            Received::Complete(_) => false,
        },
{
    bytes::be32_round_trip(cmd.len());
    if k >= 4 {
        assert(request(cmd).take(k).take(4) =~= bytes::be32(cmd.len()));
    }
}

/// A reader that has part of a response asks for more, and never for more
/// than the response holds.
pub proof fn response_in_parts(code: u8, out: Seq<u8>, k: int)
    requires
        out.len() <= u32::MAX,
        0 <= k < response(code, out).len(),
    ensures
        match decode_response(response(code, out).take(k)) {
            Received::Need(n) => 0 < n && k + n <= response(code, out).len(),
            Received::Complete(_) => false,
        },
{
    bytes::be32_round_trip(out.len());
    if k >= 5 {
        assert(response(code, out).take(k).subrange(1, 5) =~= bytes::be32(out.len()));
    }
}

/// Why a sync-tree frame cannot be served.
#[derive(PartialEq, Eq, Structural)]
pub enum FrameError {
    /// No NUL ends the target.
    NoTarget,
    /// The target is not UTF-8.
    BadTarget,
}

impl FrameError {
    pub open spec fn message_text(self) -> Seq<char> {
        match self {
            FrameError::NoTarget => "malformed sync frame"@,
            FrameError::BadTarget => "malformed sync target"@,
        }
    }

    pub fn message(&self) -> (r: String)
        ensures
            r@ == self.message_text(),
    {
        match self {
            FrameError::NoTarget => "malformed sync frame".to_owned(),
            FrameError::BadTarget => "malformed sync target".to_owned(),
        }
    }
}

/// The target and the payload of a sync-tree frame, from what follows its prefix.
pub open spec fn synctree_body(body: Seq<u8>) -> Result<(Seq<char>, Seq<u8>), FrameError> {
    let nul = seqs::index_of(body, 0u8);
    if nul >= body.len() {
        Err(FrameError::NoTarget)
    } else if !vstd::utf8::valid_utf8(body.take(nul)) {
        Err(FrameError::BadTarget)
    } else {
        Ok((vstd::utf8::decode_utf8(body.take(nul)), body.skip(nul + 1)))
    }
}

/// True of a frame that opens with the sync-tree prefix.
pub open spec fn is_synctree(frame: Seq<u8>) -> bool {
    wire(SYNCTREE_PREFIX@).is_prefix_of(frame)
}

/// Takes a sync-tree frame apart.
pub fn parse_synctree(frame: &[u8]) -> (r: Result<(String, Vec<u8>), FrameError>)
    requires
        is_synctree(frame@),
    ensures
        match r {
            Ok((target, gz_tar)) => synctree_body(frame@.skip(wire(SYNCTREE_PREFIX@).len() as int))
                == Ok::<(Seq<char>, Seq<u8>), FrameError>((target@, gz_tar@)),
            Err(e) => synctree_body(frame@.skip(wire(SYNCTREE_PREFIX@).len() as int)) == Err::<
                (Seq<char>, Seq<u8>),
                FrameError,
            >(e),
        },
{
    let from = SYNCTREE_PREFIX.as_bytes().len();
    let ghost body = frame@.skip(from as int);
    let nul = bytes::position(frame, 0, from);
    if nul == frame.len() {
        return Err(FrameError::NoTarget);
    }
    let name = bytes::slice_of(frame, from, nul);
    assert(name@ =~= body.take(nul - from));
    match text::utf8_text(&name) {
        None => Err(FrameError::BadTarget),
        Some(target) => {
            let gz_tar = bytes::slice_of(frame, nul + 1, frame.len());
            assert(gz_tar@ =~= body.skip(nul - from + 1));
            Ok((target, gz_tar))
        },
    }
}

proof fn lemma_scalar_nonzero(c: u32)
    requires
        c != 0,
    ensures
        !vstd::utf8::encode_scalar(c).contains(0u8),
{
    assert(c != 0 && c <= 0x7f ==> ((c & 0x7f) as u8) != 0) by (bit_vector);
    assert((0xC0 | ((c >> 6) & 0x1F) as u8) != 0) by (bit_vector);
    assert((0xE0 | ((c >> 12) & 0x0F) as u8) != 0) by (bit_vector);
    assert((0xF0 | ((c >> 18) & 0x7) as u8) != 0) by (bit_vector);
    assert((0x80 | (c & 0x3F) as u8) != 0) by (bit_vector);
    assert((0x80 | ((c >> 6) & 0x3F) as u8) != 0) by (bit_vector);
    assert((0x80 | ((c >> 12) & 0x3F) as u8) != 0) by (bit_vector);
}

/// The encoding of text without NUL holds no zero byte.
pub proof fn lemma_wire_nonzero(s: Seq<char>)
    requires
        !s.contains('\0'),
    ensures
        !wire(s).contains(0u8),
    decreases s.len(),
{
    if s.len() > 0 {
        let t = s.drop_first();
        assert forall|i: int| 0 <= i < t.len() implies t[i] != '\0' by {
            assert(t[i] == s[i + 1]);
        }
        assert(!t.contains('\0'));
        lemma_wire_nonzero(t);
        assert(s.contains(s[0]));
        if s[0] as u32 == 0 {
            vstd::utf8::char_u32_cast(s[0], 0);
        }
        lemma_scalar_nonzero(s[0] as u32);
        let head = vstd::utf8::encode_scalar(s[0] as u32);
        let tail = wire(t);
        assert(wire(s) == head + tail);
        if wire(s).contains(0u8) {
            let k = choose|k: int| 0 <= k < wire(s).len() && wire(s)[k] == 0u8;
            if k < head.len() {
                assert(head[k] == 0u8);
            } else {
                assert(tail[k - head.len()] == 0u8);
            }
        }
    }
}

/// The guest finds in a sync-tree frame the target and the payload that the
/// host put there. A target with a NUL in it would end early.
pub proof fn synctree_round_trip(target: Seq<char>, gz_tar: Seq<u8>)
    requires
        !target.contains('\0'),
    ensures
        is_synctree(synctree(target, gz_tar)),
        synctree_body(synctree(target, gz_tar).skip(wire(SYNCTREE_PREFIX@).len() as int)) == Ok::<
            (Seq<char>, Seq<u8>),
            FrameError,
        >((target, gz_tar)),
{
    let prefix = wire(SYNCTREE_PREFIX@);
    let frame = synctree(target, gz_tar);
    assert(prefix =~= frame.subrange(0, prefix.len() as int));
    let body = frame.skip(prefix.len() as int);
    let name = wire(target);
    assert(body =~= name + seq![0u8] + gz_tar);
    lemma_wire_nonzero(target);
    assert forall|j: int| 0 <= j < name.len() implies body[j] != 0u8 by {
        assert(name.contains(name[j]));
    }
    seqs::lemma_index_of(body, 0u8, name.len() as int);
    assert(body.take(name.len() as int) =~= name);
    assert(body.skip(name.len() as int + 1) =~= gz_tar);
    vstd::utf8::encode_utf8_valid_utf8(target);
    vstd::utf8::encode_utf8_decode_utf8(target);
}

} // verus!
