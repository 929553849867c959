//! The deterministic byte codec of the core: little-endian fixed-width
//! numbers, length-prefixed byte strings, and the typed wire messages built
//! from them. Every decoder is specified on all inputs, and encoding
//! followed by decoding returns the value that went in.

use vstd::prelude::*;

use crate::types::{
    BroadcastMsgRequest, Log, LogRequest, LogRequestV, LogResponse, LogV, MsgPayload, MsgPayloadV, NetMsg, NetMsgV,
    NodeId, RaftError, VoteRequest, VoteResponse,
};
use crate::types::{method_tag, spec_method_tag, spec_tag_method, tag_method};

verus! {

// ---------------------------------------------------------------------------
// u64, little endian, 8 bytes
// ---------------------------------------------------------------------------

pub open spec fn enc_u64(v: u64) -> Seq<u8> {
    seq![
        (v & 0xff) as u8,
        ((v >> 8) & 0xff) as u8,
        ((v >> 16) & 0xff) as u8,
        ((v >> 24) & 0xff) as u8,
        ((v >> 32) & 0xff) as u8,
        ((v >> 40) & 0xff) as u8,
        ((v >> 48) & 0xff) as u8,
        ((v >> 56) & 0xff) as u8,
    ]
}

/// The number read from the 8 bytes at `pos`.
pub open spec fn u64_at(s: Seq<u8>, pos: int) -> u64 {
    (s[pos] as u64) | ((s[pos + 1] as u64) << 8) | ((s[pos + 2] as u64) << 16) | ((s[pos + 3]
        as u64) << 24) | ((s[pos + 4] as u64) << 32) | ((s[pos + 5] as u64) << 40) | ((s[pos + 6]
        as u64) << 48) | ((s[pos + 7] as u64) << 56)
}

pub open spec fn dec_u64(s: Seq<u8>, pos: int) -> Option<(u64, int)> {
    if 0 <= pos && pos + 8 <= s.len() {
        Some((u64_at(s, pos), pos + 8))
    } else {
        None
    }
}

/// Reading back the 8 bytes an encoding laid down returns the encoded number.
pub proof fn lemma_dec_u64_at(s: Seq<u8>, pos: int, v: u64)
    requires
        0 <= pos,
        pos + 8 <= s.len(),
        s.subrange(pos, pos + 8) == enc_u64(v),
    ensures
        dec_u64(s, pos) == Some((v, pos + 8)),
{
    assert forall|k: int| 0 <= k < 8 implies s[pos + k] == enc_u64(v)[k] by {
        assert(s.subrange(pos, pos + 8)[k] == s[pos + k]);
    }
    assert((((v & 0xff) as u8 as u64) | (((v >> 8) & 0xff) as u8 as u64) << 8 | (((v >> 16) & 0xff)
        as u8 as u64) << 16 | (((v >> 24) & 0xff) as u8 as u64) << 24 | (((v >> 32) & 0xff) as u8
        as u64) << 32 | (((v >> 40) & 0xff) as u8 as u64) << 40 | (((v >> 48) & 0xff) as u8 as u64)
        << 48 | (((v >> 56) & 0xff) as u8 as u64) << 56) == v) by (bit_vector);
    assert(u64_at(s, pos) == v);
}

/// Appends the encoding of `v`.
pub fn push_u64(out: &mut Vec<u8>, v: u64)
    ensures
        final(out)@ == old(out)@ + enc_u64(v),
{
    out.push((v & 0xff) as u8);
    out.push(((v >> 8) & 0xff) as u8);
    out.push(((v >> 16) & 0xff) as u8);
    out.push(((v >> 24) & 0xff) as u8);
    out.push(((v >> 32) & 0xff) as u8);
    out.push(((v >> 40) & 0xff) as u8);
    out.push(((v >> 48) & 0xff) as u8);
    out.push(((v >> 56) & 0xff) as u8);
    proof {
        assert(out@ =~= old(out)@ + enc_u64(v));
    }
}

/// Reads a number; `Err(Decode)` exactly when fewer than 8 bytes remain.
pub fn read_u64(bytes: &Vec<u8>, pos: usize) -> (r: Result<(u64, usize), RaftError>)
    ensures
        match dec_u64(bytes@, pos as int) {
            Some(vp) => r matches Ok(x) && x.0 == vp.0 && x.1 == vp.1,
            None => r matches Err(e) && e == RaftError::Decode,
        },
{
    if bytes.len() >= 8 && pos <= bytes.len() - 8 {
        let v = (bytes[pos] as u64) | ((bytes[pos + 1] as u64) << 8) | ((bytes[pos + 2] as u64)
            << 16) | ((bytes[pos + 3] as u64) << 24) | ((bytes[pos + 4] as u64) << 32) | ((
        bytes[pos + 5] as u64) << 40) | ((bytes[pos + 6] as u64) << 48) | ((bytes[pos + 7] as u64)
            << 56);
        Ok((v, pos + 8))
    } else {
        Err(RaftError::Decode)
    }
}

// ---------------------------------------------------------------------------
// u32, little endian, 4 bytes
// ---------------------------------------------------------------------------

pub open spec fn enc_u32(v: u32) -> Seq<u8> {
    seq![
        (v & 0xff) as u8,
        ((v >> 8) & 0xff) as u8,
        ((v >> 16) & 0xff) as u8,
        ((v >> 24) & 0xff) as u8,
    ]
}

pub open spec fn u32_at(s: Seq<u8>, pos: int) -> u32 {
    (s[pos] as u32) | ((s[pos + 1] as u32) << 8) | ((s[pos + 2] as u32) << 16) | ((s[pos + 3]
        as u32) << 24)
}

pub open spec fn dec_u32(s: Seq<u8>, pos: int) -> Option<(u32, int)> {
    if 0 <= pos && pos + 4 <= s.len() {
        Some((u32_at(s, pos), pos + 4))
    } else {
        None
    }
}

pub proof fn lemma_dec_u32_at(s: Seq<u8>, pos: int, v: u32)
    requires
        0 <= pos,
        pos + 4 <= s.len(),
        s.subrange(pos, pos + 4) == enc_u32(v),
    ensures
        dec_u32(s, pos) == Some((v, pos + 4)),
{
    assert forall|k: int| 0 <= k < 4 implies s[pos + k] == enc_u32(v)[k] by {
        assert(s.subrange(pos, pos + 4)[k] == s[pos + k]);
    }
    assert((((v & 0xff) as u8 as u32) | (((v >> 8) & 0xff) as u8 as u32) << 8 | (((v >> 16) & 0xff)
        as u8 as u32) << 16 | (((v >> 24) & 0xff) as u8 as u32) << 24) == v) by (bit_vector);
    assert(u32_at(s, pos) == v);
}

pub fn push_u32(out: &mut Vec<u8>, v: u32)
    ensures
        final(out)@ == old(out)@ + enc_u32(v),
{
    out.push((v & 0xff) as u8);
    out.push(((v >> 8) & 0xff) as u8);
    out.push(((v >> 16) & 0xff) as u8);
    out.push(((v >> 24) & 0xff) as u8);
    proof {
        assert(out@ =~= old(out)@ + enc_u32(v));
    }
}

pub fn read_u32(bytes: &Vec<u8>, pos: usize) -> (r: Result<(u32, usize), RaftError>)
    ensures
        match dec_u32(bytes@, pos as int) {
            Some(vp) => r matches Ok(x) && x.0 == vp.0 && x.1 == vp.1,
            None => r matches Err(e) && e == RaftError::Decode,
        },
{
    if bytes.len() >= 4 && pos <= bytes.len() - 4 {
        let v = (bytes[pos] as u32) | ((bytes[pos + 1] as u32) << 8) | ((bytes[pos + 2] as u32)
            << 16) | ((bytes[pos + 3] as u32) << 24);
        Ok((v, pos + 4))
    } else {
        Err(RaftError::Decode)
    }
}

// ---------------------------------------------------------------------------
// bool, 1 byte, strictly 0 or 1
// ---------------------------------------------------------------------------

pub open spec fn enc_bool(b: bool) -> Seq<u8> {
    seq![if b { 1u8 } else { 0u8 }]
}

pub open spec fn dec_bool(s: Seq<u8>, pos: int) -> Option<(bool, int)> {
    if 0 <= pos && pos + 1 <= s.len() {
        if s[pos] == 0 {
            Some((false, pos + 1))
        } else if s[pos] == 1 {
            Some((true, pos + 1))
        } else {
            None
        }
    } else {
        None
    }
}

pub fn push_bool(out: &mut Vec<u8>, b: bool)
    ensures
        final(out)@ == old(out)@ + enc_bool(b),
{
    out.push(if b { 1u8 } else { 0u8 });
    proof {
        assert(out@ =~= old(out)@ + enc_bool(b));
    }
}

pub fn read_bool(bytes: &Vec<u8>, pos: usize) -> (r: Result<(bool, usize), RaftError>)
    ensures
        match dec_bool(bytes@, pos as int) {
            Some(vp) => r matches Ok(x) && x.0 == vp.0 && x.1 == vp.1,
            None => r matches Err(e) && e == RaftError::Decode,
        },
{
    if pos < bytes.len() {
        let b = bytes[pos];
        if b == 0 {
            Ok((false, pos + 1))
        } else if b == 1 {
            Ok((true, pos + 1))
        } else {
            Err(RaftError::Decode)
        }
    } else {
        Err(RaftError::Decode)
    }
}

// ---------------------------------------------------------------------------
// byte strings, length-prefixed
// ---------------------------------------------------------------------------

pub open spec fn enc_bytes(b: Seq<u8>) -> Seq<u8> {
    enc_u64(b.len() as u64) + b
}

pub open spec fn dec_bytes(s: Seq<u8>, pos: int) -> Option<(Seq<u8>, int)> {
    match dec_u64(s, pos) {
        Some((n, p)) => if p + n <= s.len() {
            Some((s.subrange(p, p + n), p + n))
        } else {
            None
        },
        None => None,
    }
}

/// Reading back an encoded byte string returns its contents.
pub proof fn lemma_dec_bytes_at(s: Seq<u8>, pos: int, b: Seq<u8>)
    requires
        0 <= pos,
        b.len() <= u64::MAX,
        pos + 8 + b.len() <= s.len(),
        s.subrange(pos, pos + 8 + b.len()) == enc_bytes(b),
    ensures
        dec_bytes(s, pos) == Some((b, pos + 8 + b.len())),
{
    let whole = s.subrange(pos, pos + 8 + b.len());
    assert forall|k: int| 0 <= k < 8 implies #[trigger] s.subrange(pos, pos + 8)[k] == enc_u64(
        b.len() as u64,
    )[k] by {
        assert(whole[k] == s[pos + k]);
        assert(s.subrange(pos, pos + 8)[k] == s[pos + k]);
        assert(enc_bytes(b)[k] == enc_u64(b.len() as u64)[k]);
    }
    assert(s.subrange(pos, pos + 8) =~= enc_u64(b.len() as u64));
    lemma_dec_u64_at(s, pos, b.len() as u64);
    let p = pos + 8;
    let n = b.len() as u64;
    assert(p + n <= s.len());
    assert forall|k: int| 0 <= k < b.len() implies s.subrange(p, p + n)[k] == b[k] by {
        assert(whole[8 + k] == s[pos + 8 + k]);
        assert(enc_bytes(b)[8 + k] == b[k]);
        assert(s.subrange(p, p + n)[k] == s[p + k]);
    }
    assert(s.subrange(p, p + n) =~= b);
}

/// Appends a length prefix and the bytes of `b`.
pub fn push_bytes(out: &mut Vec<u8>, b: &Vec<u8>)
    ensures
        final(out)@ == old(out)@ + enc_bytes(b@),
{
    push_u64(out, b.len() as u64);
    let mut i: usize = 0;
    let ghost mid = out@;
    while i < b.len()
        invariant
            i <= b.len(),
            out@ == mid + b@.take(i as int),
        decreases b.len() - i,
    {
        out.push(b[i]);
        i = i + 1;
        proof {
            assert(out@ =~= mid + b@.take(i as int));
        }
    }
    proof {
        assert(out@ =~= old(out)@ + enc_bytes(b@));
    }
}

/// Reads a length-prefixed byte string; `Err(Decode)` exactly when the
/// prefix or the bytes run past the end.
pub fn read_bytes(bytes: &Vec<u8>, pos: usize) -> (r: Result<(Vec<u8>, usize), RaftError>)
    ensures
        match dec_bytes(bytes@, pos as int) {
            Some(vp) => r matches Ok(x) && x.0@ == vp.0 && x.1 == vp.1,
            None => r matches Err(e) && e == RaftError::Decode,
        },
{
    let (n, p) = match read_u64(bytes, pos) {
        Ok(x) => x,
        Err(e) => {
            return Err(e);
        },
    };
    if n <= (bytes.len() - p) as u64 {
        let end: usize = p + n as usize;
        let mut out: Vec<u8> = Vec::new();
        let mut i: usize = p;
        while i < end
            invariant
                p <= i <= end,
                end <= bytes@.len(),
                out@ == bytes@.subrange(p as int, i as int),
            decreases end - i,
        {
            out.push(bytes[i]);
            i = i + 1;
            proof {
                assert(out@ =~= bytes@.subrange(p as int, i as int));
            }
        }
        proof {
            assert(out@ =~= bytes@.subrange(p as int, p + n as int));
        }
        Ok((out, end))
    } else {
        Err(RaftError::Decode)
    }
}

// ---------------------------------------------------------------------------
// optional node identity, used for the advisory recipient tag
// ---------------------------------------------------------------------------

pub open spec fn enc_opt_node(o: Option<NodeId>) -> Seq<u8> {
    match o {
        Option::None => seq![0u8],
        Option::Some(n) => seq![1u8] + enc_u64(n.id),
    }
}

pub open spec fn dec_opt_node(s: Seq<u8>, pos: int) -> Option<(Option<NodeId>, int)> {
    if 0 <= pos && pos + 1 <= s.len() {
        if s[pos] == 0 {
            Some((Option::None, pos + 1))
        } else if s[pos] == 1 {
            match dec_u64(s, pos + 1) {
                Some((v, p)) => Some((Some(NodeId { id: v }), p)),
                None => None,
            }
        } else {
            None
        }
    } else {
        None
    }
}

pub proof fn lemma_dec_opt_node_at(s: Seq<u8>, pos: int, o: Option<NodeId>)
    requires
        0 <= pos,
        pos + enc_opt_node(o).len() <= s.len(),
        s.subrange(pos, pos + enc_opt_node(o).len()) == enc_opt_node(o),
    ensures
        dec_opt_node(s, pos) == Some((o, pos + enc_opt_node(o).len())),
{
    let e = enc_opt_node(o);
    assert(s.subrange(pos, pos + e.len())[0] == s[pos]);
    match o {
        Option::None => {
            assert(s[pos] == 0);
        },
        Option::Some(n) => {
            assert(s[pos] == 1);
            assert forall|k: int| 0 <= k < 8 implies s.subrange(pos + 1, pos + 9)[k] == enc_u64(
                n.id,
            )[k] by {
                assert(s.subrange(pos, pos + e.len())[1 + k] == s[pos + 1 + k]);
                assert(e[1 + k] == enc_u64(n.id)[k]);
                assert(s.subrange(pos + 1, pos + 9)[k] == s[pos + 1 + k]);
            }
            assert(s.subrange(pos + 1, pos + 9) =~= enc_u64(n.id));
            lemma_dec_u64_at(s, pos + 1, n.id);
        },
    }
}

pub fn push_opt_node(out: &mut Vec<u8>, o: &Option<NodeId>)
    ensures
        final(out)@ == old(out)@ + enc_opt_node(*o),
{
    match o {
        Option::None => {
            out.push(0u8);
        },
        Option::Some(n) => {
            out.push(1u8);
            push_u64(out, n.id);
        },
    }
    proof {
        assert(out@ =~= old(out)@ + enc_opt_node(*o));
    }
}

pub fn read_opt_node(bytes: &Vec<u8>, pos: usize) -> (r: Result<
    (Option<NodeId>, usize),
    RaftError,
>)
    ensures
        match dec_opt_node(bytes@, pos as int) {
            Some(vp) => r matches Ok(x) && x.0 == vp.0 && x.1 == vp.1,
            None => r matches Err(e) && e == RaftError::Decode,
        },
{
    if pos < bytes.len() {
        let tag = bytes[pos];
        if tag == 0 {
            Ok((None, pos + 1))
        } else if tag == 1 {
            match read_u64(bytes, pos + 1) {
                Ok((v, p)) => Ok((Some(NodeId { id: v }), p)),
                Err(e) => Err(e),
            }
        } else {
            Err(RaftError::Decode)
        }
    } else {
        Err(RaftError::Decode)
    }
}


// ---------------------------------------------------------------------------
// log entries and entry lists
// ---------------------------------------------------------------------------

pub open spec fn enc_log(e: LogV) -> Seq<u8> {
    enc_u64(e.term) + enc_bytes(e.msg)
}

pub open spec fn dec_log(s: Seq<u8>, pos: int) -> Option<(LogV, int)> {
    match dec_u64(s, pos) {
        Some((term, p)) => match dec_bytes(s, p) {
            Some((msg, p2)) => Some((LogV { term, msg }, p2)),
            None => None,
        },
        None => None,
    }
}

/// An entry whose encoding is well defined: its payload length fits in the
/// length prefix.
pub open spec fn wf_log(e: LogV) -> bool {
    e.msg.len() <= u64::MAX
}

pub open spec fn wf_logs(es: Seq<LogV>) -> bool {
    &&& es.len() <= u64::MAX
    &&& forall|i: int| 0 <= i < es.len() ==> wf_log(#[trigger] es[i])
}

pub proof fn lemma_dec_log_at(s: Seq<u8>, pos: int, e: LogV)
    requires
        0 <= pos,
        wf_log(e),
        pos + enc_log(e).len() <= s.len(),
        s.subrange(pos, pos + enc_log(e).len()) == enc_log(e),
    ensures
        dec_log(s, pos) == Some((e, pos + enc_log(e).len())),
{
    let whole = enc_log(e);
    let len = whole.len() as int;
    assert forall|k: int| 0 <= k < 8 implies #[trigger] s.subrange(pos, pos + 8)[k] == enc_u64(
        e.term,
    )[k] by {
        assert(s.subrange(pos, pos + len)[k] == s[pos + k]);
        assert(s.subrange(pos, pos + 8)[k] == s[pos + k]);
        assert(whole[k] == enc_u64(e.term)[k]);
    }
    assert(s.subrange(pos, pos + 8) =~= enc_u64(e.term));
    lemma_dec_u64_at(s, pos, e.term);
    let p = pos + 8;
    let blen = 8 + e.msg.len() as int;
    assert forall|k: int| 0 <= k < blen implies #[trigger] s.subrange(p, p + blen)[k] == enc_bytes(
        e.msg,
    )[k] by {
        assert(s.subrange(pos, pos + len)[8 + k] == s[pos + 8 + k]);
        assert(whole[8 + k] == enc_bytes(e.msg)[8 + k - 8]);
        assert(s.subrange(p, p + blen)[k] == s[p + k]);
    }
    assert(s.subrange(p, p + blen) =~= enc_bytes(e.msg));
    lemma_dec_bytes_at(s, p, e.msg);
}

/// Appends the encoding of one entry.
pub fn push_log(out: &mut Vec<u8>, e: &Log)
    ensures
        final(out)@ == old(out)@ + enc_log(e@),
{
    push_u64(out, e.term);
    push_bytes(out, &e.msg);
    proof {
        assert(out@ =~= old(out)@ + enc_log(e@));
    }
}

/// Reads one entry; `Err(Decode)` exactly when the bytes do not hold one.
pub fn read_log(bytes: &Vec<u8>, pos: usize) -> (r: Result<(Log, usize), RaftError>)
    ensures
        match dec_log(bytes@, pos as int) {
            Some(vp) => r matches Ok(x) && x.0@ == vp.0 && x.1 == vp.1,
            None => r matches Err(e) && e == RaftError::Decode,
        },
{
    let (term, p) = match read_u64(bytes, pos) {
        Ok(x) => x,
        Err(e) => {
            return Err(e);
        },
    };
    let (msg, p2) = match read_bytes(bytes, p) {
        Ok(x) => x,
        Err(e) => {
            return Err(e);
        },
    };
    Ok((Log { term, msg }, p2))
}

/// The concatenation of the encodings of the entries, front first.
pub open spec fn enc_log_list(es: Seq<LogV>) -> Seq<u8>
    decreases es.len(),
{
    if es.len() == 0 {
        Seq::empty()
    } else {
        enc_log(es.first()) + enc_log_list(es.drop_first())
    }
}

/// Appending one entry at the back extends the encoding at the back.
pub proof fn lemma_enc_log_list_push(es: Seq<LogV>, e: LogV)
    ensures
        enc_log_list(es.push(e)) == enc_log_list(es) + enc_log(e),
    decreases es.len(),
{
    let single = es.push(e);
    if es.len() == 0 {
        assert(es =~= Seq::<LogV>::empty());
        assert(single.first() == e);
        assert(single.drop_first() =~= Seq::<LogV>::empty());
        assert(enc_log_list(single) == enc_log(e) + enc_log_list(Seq::<LogV>::empty()));
        assert(enc_log_list(Seq::<LogV>::empty()) == Seq::<u8>::empty());
        assert(enc_log_list(es) == Seq::<u8>::empty());
        assert(enc_log_list(single) =~= enc_log_list(es) + enc_log(e));
    } else {
        assert(single.len() > 0);
        assert(single.first() == es.first());
        assert(single.drop_first() =~= es.drop_first().push(e));
        lemma_enc_log_list_push(es.drop_first(), e);
        assert(enc_log_list(single) == enc_log(es.first()) + enc_log_list(single.drop_first()));
        assert(enc_log_list(es) == enc_log(es.first()) + enc_log_list(es.drop_first()));
        assert(enc_log_list(single.drop_first()) == enc_log_list(es.drop_first()) + enc_log(e));
        assert(enc_log_list(single) =~= enc_log_list(es) + enc_log(e));
    }
}

pub open spec fn dec_log_list(s: Seq<u8>, pos: int, n: nat) -> Option<(Seq<LogV>, int)>
    decreases n,
{
    if n == 0 {
        Some((Seq::empty(), pos))
    } else {
        match dec_log(s, pos) {
            Some((e, p)) => match dec_log_list(s, p, (n - 1) as nat) {
                Some((es, p2)) => Some((seq![e] + es, p2)),
                None => None,
            },
            None => None,
        }
    }
}

/// Reading back an encoded entry list returns the entries.
pub proof fn lemma_dec_log_list_at(s: Seq<u8>, pos: int, es: Seq<LogV>)
    requires
        0 <= pos,
        wf_logs(es),
        pos + enc_log_list(es).len() <= s.len(),
        s.subrange(pos, pos + enc_log_list(es).len()) == enc_log_list(es),
    ensures
        dec_log_list(s, pos, es.len()) == Some((es, pos + enc_log_list(es).len())),
    decreases es.len(),
{
    if es.len() == 0 {
    } else {
        let whole = enc_log_list(es);
        let len = whole.len() as int;
        let first = es.first();
        let l1 = enc_log(first).len() as int;
        assert(whole == enc_log(first) + enc_log_list(es.drop_first()));
        assert forall|k: int| 0 <= k < l1 implies #[trigger] s.subrange(pos, pos + l1)[k]
            == enc_log(first)[k] by {
            assert(s.subrange(pos, pos + len)[k] == s[pos + k]);
            assert(whole[k] == enc_log(first)[k]);
            assert(s.subrange(pos, pos + l1)[k] == s[pos + k]);
        }
        assert(s.subrange(pos, pos + l1) =~= enc_log(first));
        assert(wf_log(first));
        lemma_dec_log_at(s, pos, first);
        let p = pos + l1;
        let rest = enc_log_list(es.drop_first());
        let lr = rest.len() as int;
        assert forall|k: int| 0 <= k < lr implies #[trigger] s.subrange(p, p + lr)[k] == rest[k] by {
            assert(s.subrange(pos, pos + len)[l1 + k] == s[pos + l1 + k]);
            assert(whole[l1 + k] == rest[k]);
            assert(s.subrange(p, p + lr)[k] == s[p + k]);
        }
        assert(s.subrange(p, p + lr) =~= rest);
        assert(wf_logs(es.drop_first())) by {
            assert(forall|i: int|
                0 <= i < es.drop_first().len() ==> #[trigger] es.drop_first()[i] == es[i + 1]);
        }
        lemma_dec_log_list_at(s, p, es.drop_first());
        assert(seq![first] + es.drop_first() =~= es);
    }
}

/// The count followed by the entries.
pub open spec fn enc_logs(es: Seq<LogV>) -> Seq<u8> {
    enc_u64(es.len() as u64) + enc_log_list(es)
}

pub open spec fn dec_logs(s: Seq<u8>, pos: int) -> Option<(Seq<LogV>, int)> {
    match dec_u64(s, pos) {
        Some((n, p)) => dec_log_list(s, p, n as nat),
        None => None,
    }
}

pub proof fn lemma_dec_logs_at(s: Seq<u8>, pos: int, es: Seq<LogV>)
    requires
        0 <= pos,
        wf_logs(es),
        pos + enc_logs(es).len() <= s.len(),
        s.subrange(pos, pos + enc_logs(es).len()) == enc_logs(es),
    ensures
        dec_logs(s, pos) == Some((es, pos + enc_logs(es).len())),
{
    let whole = enc_logs(es);
    let len = whole.len() as int;
    assert forall|k: int| 0 <= k < 8 implies #[trigger] s.subrange(pos, pos + 8)[k] == enc_u64(
        es.len() as u64,
    )[k] by {
        assert(s.subrange(pos, pos + len)[k] == s[pos + k]);
        assert(whole[k] == enc_u64(es.len() as u64)[k]);
        assert(s.subrange(pos, pos + 8)[k] == s[pos + k]);
    }
    assert(s.subrange(pos, pos + 8) =~= enc_u64(es.len() as u64));
    lemma_dec_u64_at(s, pos, es.len() as u64);
    let p = pos + 8;
    let rest = enc_log_list(es);
    let lr = rest.len() as int;
    assert forall|k: int| 0 <= k < lr implies #[trigger] s.subrange(p, p + lr)[k] == rest[k] by {
        assert(s.subrange(pos, pos + len)[8 + k] == s[pos + 8 + k]);
        assert(whole[8 + k] == rest[k]);
        assert(s.subrange(p, p + lr)[k] == s[p + k]);
    }
    assert(s.subrange(p, p + lr) =~= rest);
    lemma_dec_log_list_at(s, p, es);
    assert(es.len() as u64 as nat == es.len());
}

/// Appends the count and the entries of `es`.
pub fn push_logs(out: &mut Vec<u8>, es: &Vec<Log>)
    ensures
        final(out)@ == old(out)@ + enc_logs(es.deep_view()),
{
    push_u64(out, es.len() as u64);
    let ghost mid = out@;
    let ghost dv = es.deep_view();
    proof {
        assert(dv.len() == es@.len());
        assert(dv.take(0) =~= Seq::<LogV>::empty());
    }
    let mut i: usize = 0;
    while i < es.len()
        invariant
            i <= es.len(),
            dv == es.deep_view(),
            dv.len() == es@.len(),
            mid == old(out)@ + enc_u64(es@.len() as u64),
            out@ == mid + enc_log_list(dv.take(i as int)),
        decreases es.len() - i,
    {
        let ghost before = dv.take(i as int);
        push_log(out, &es[i]);
        proof {
            assert(es@[i as int]@ == dv[i as int]);
            lemma_enc_log_list_push(before, dv[i as int]);
            assert(before.push(dv[i as int]) =~= dv.take(i as int + 1));
        }
        i = i + 1;
    }
    proof {
        assert(dv.take(dv.len() as int) =~= dv);
        assert(out@ =~= old(out)@ + enc_logs(es.deep_view()));
    }
}

/// Reads a count and that many entries; `Err(Decode)` exactly when the
/// bytes do not hold them.
pub fn read_logs(bytes: &Vec<u8>, pos: usize) -> (r: Result<(Vec<Log>, usize), RaftError>)
    ensures
        match dec_logs(bytes@, pos as int) {
            Some(vp) => r matches Ok(x) && x.0.deep_view() == vp.0 && x.1 == vp.1,
            None => r matches Err(e) && e == RaftError::Decode,
        },
{
    let (n, p0) = match read_u64(bytes, pos) {
        Ok(x) => x,
        Err(e) => {
            return Err(e);
        },
    };
    let mut out: Vec<Log> = Vec::new();
    let mut p: usize = p0;
    let mut i: u64 = 0;
    proof {
        assert(out.deep_view() =~= Seq::<LogV>::empty());
    }
    while i < n
        invariant
            i <= n,
            out.deep_view().len() == i,
            p <= bytes@.len(),
            dec_u64(bytes@, pos as int) == Some((n, p0 as int)),
            match dec_log_list(bytes@, p as int, (n - i) as nat) {
                Some(vp) => dec_log_list(bytes@, p0 as int, n as nat) == Some(
                    (out.deep_view() + vp.0, vp.1),
                ),
                None => dec_log_list(bytes@, p0 as int, n as nat) is None,
            },
        decreases n - i,
    {
        let ghost acc0 = out.deep_view();
        let (e, p2) = match read_log(bytes, p) {
            Ok(x) => x,
            Err(er) => {
                proof {
                    assert(dec_log(bytes@, p as int) is None);
                    assert(dec_log_list(bytes@, p as int, (n - i) as nat) is None);
                }
                return Err(er);
            },
        };
        proof {
            let ev = choose|ev: (LogV, int)| dec_log(bytes@, p as int) == Some(ev);
        }
        out.push(e);
        proof {
            assert(out.deep_view() =~= acc0.push(e@));
            let (ev, pv) = dec_log(bytes@, p as int).unwrap();
            assert(ev == e@ && pv == p2 as int);
            match dec_log_list(bytes@, p2 as int, (n - i - 1) as nat) {
                Some(vp) => {
                    assert(dec_log_list(bytes@, p as int, (n - i) as nat) == Some(
                        (seq![ev] + vp.0, vp.1),
                    ));
                    assert(acc0 + (seq![ev] + vp.0) =~= out.deep_view() + vp.0);
                },
                None => {
                    assert(dec_log_list(bytes@, p as int, (n - i) as nat) is None);
                },
            }
            assert(p2 as int <= bytes@.len()) by {
                let b = dec_bytes(bytes@, p as int + 8).unwrap();
            }
        }
        p = p2;
        i = i + 1;
    }
    proof {
        assert(dec_log_list(bytes@, p as int, 0nat) == Some((Seq::<LogV>::empty(), p as int)));
        assert(out.deep_view() + Seq::<LogV>::empty() =~= out.deep_view());
    }
    Ok((out, p))
}


// ---------------------------------------------------------------------------
// splitting concatenations
// ---------------------------------------------------------------------------

/// In `pre + mid + post`, the bytes of `mid` sit right after `pre`.
pub proof fn lemma_extract(s: Seq<u8>, pre: Seq<u8>, mid: Seq<u8>, post: Seq<u8>)
    requires
        s == pre + mid + post,
    ensures
        s.subrange(pre.len() as int, pre.len() + mid.len() as int) == mid,
{
    assert(s.subrange(pre.len() as int, pre.len() + mid.len() as int) =~= mid);
}

// ---------------------------------------------------------------------------
// the five wire bodies and the task daemon's envelope
// ---------------------------------------------------------------------------

pub open spec fn enc_vote_request(m: VoteRequest) -> Seq<u8> {
    enc_u64(m.node_id.id) + enc_u64(m.current_term) + enc_u64(m.log_length) + enc_u64(m.last_term)
}

pub open spec fn dec_vote_request(s: Seq<u8>) -> Option<VoteRequest> {
    match dec_u64(s, 0) {
        Some((nid, p1)) => match dec_u64(s, p1) {
            Some((ct, p2)) => match dec_u64(s, p2) {
                Some((ll, p3)) => match dec_u64(s, p3) {
                    Some((lt, p4)) => if p4 == s.len() {
                        Some(
                            VoteRequest {
                                node_id: NodeId { id: nid },
                                current_term: ct,
                                log_length: ll,
                                last_term: lt,
                            },
                        )
                    } else {
                        None
                    },
                    None => None,
                },
                None => None,
            },
            None => None,
        },
        None => None,
    }
}

/// A vote request decodes back to itself.
pub proof fn lemma_vote_request_round_trip(m: VoteRequest)
    ensures
        dec_vote_request(enc_vote_request(m)) == Some(m),
{
    let s = enc_vote_request(m);
    let e1 = enc_u64(m.node_id.id);
    let e2 = enc_u64(m.current_term);
    let e3 = enc_u64(m.log_length);
    let e4 = enc_u64(m.last_term);
    assert(s == Seq::<u8>::empty() + e1 + (e2 + e3 + e4)) by {
        assert(s =~= Seq::<u8>::empty() + e1 + (e2 + e3 + e4));
    }
    lemma_extract(s, Seq::<u8>::empty(), e1, e2 + e3 + e4);
    lemma_dec_u64_at(s, 0, m.node_id.id);
    assert(s == e1 + e2 + (e3 + e4)) by {
        assert(s =~= e1 + e2 + (e3 + e4));
    }
    lemma_extract(s, e1, e2, e3 + e4);
    lemma_dec_u64_at(s, 8, m.current_term);
    assert(s == (e1 + e2) + e3 + e4) by {
        assert(s =~= (e1 + e2) + e3 + e4);
    }
    lemma_extract(s, e1 + e2, e3, e4);
    lemma_dec_u64_at(s, 16, m.log_length);
    assert(s == (e1 + e2 + e3) + e4 + Seq::<u8>::empty()) by {
        assert(s =~= (e1 + e2 + e3) + e4 + Seq::<u8>::empty());
    }
    lemma_extract(s, e1 + e2 + e3, e4, Seq::<u8>::empty());
    lemma_dec_u64_at(s, 24, m.last_term);
    assert(m == (VoteRequest {
        node_id: NodeId { id: m.node_id.id },
        current_term: m.current_term,
        log_length: m.log_length,
        last_term: m.last_term,
    }));
}

pub fn encode_vote_request(m: &VoteRequest) -> (r: Vec<u8>)
    ensures
        r@ == enc_vote_request(*m),
{
    let mut out: Vec<u8> = Vec::new();
    push_u64(&mut out, m.node_id.id);
    push_u64(&mut out, m.current_term);
    push_u64(&mut out, m.log_length);
    push_u64(&mut out, m.last_term);
    proof {
        assert(out@ =~= enc_vote_request(*m));
    }
    out
}

/// Decodes a vote request; `Err(Decode)` exactly when the bytes are not an
/// encoding of one.
pub fn decode_vote_request(bytes: &Vec<u8>) -> (r: Result<VoteRequest, RaftError>)
    ensures
        match dec_vote_request(bytes@) {
            Some(m) => r matches Ok(x) && x == m,
            None => r matches Err(e) && e == RaftError::Decode,
        },
{
    let (nid, p1) = match read_u64(bytes, 0) {
        Ok(x) => x,
        Err(e) => {
            return Err(e);
        },
    };
    let (ct, p2) = match read_u64(bytes, p1) {
        Ok(x) => x,
        Err(e) => {
            return Err(e);
        },
    };
    let (ll, p3) = match read_u64(bytes, p2) {
        Ok(x) => x,
        Err(e) => {
            return Err(e);
        },
    };
    let (lt, p4) = match read_u64(bytes, p3) {
        Ok(x) => x,
        Err(e) => {
            return Err(e);
        },
    };
    if p4 != bytes.len() {
        return Err(RaftError::Decode);
    }
    Ok(VoteRequest { node_id: NodeId { id: nid }, current_term: ct, log_length: ll, last_term: lt })
}

pub open spec fn enc_vote_response(m: VoteResponse) -> Seq<u8> {
    enc_u64(m.node_id.id) + enc_u64(m.current_term) + enc_bool(m.ok)
}

pub open spec fn dec_vote_response(s: Seq<u8>) -> Option<VoteResponse> {
    match dec_u64(s, 0) {
        Some((nid, p1)) => match dec_u64(s, p1) {
            Some((ct, p2)) => match dec_bool(s, p2) {
                Some((ok, p3)) => if p3 == s.len() {
                    Some(VoteResponse { node_id: NodeId { id: nid }, current_term: ct, ok })
                } else {
                    None
                },
                None => None,
            },
            None => None,
        },
        None => None,
    }
}

/// A vote response decodes back to itself.
pub proof fn lemma_vote_response_round_trip(m: VoteResponse)
    ensures
        dec_vote_response(enc_vote_response(m)) == Some(m),
{
    let s = enc_vote_response(m);
    let e1 = enc_u64(m.node_id.id);
    let e2 = enc_u64(m.current_term);
    let e3 = enc_bool(m.ok);
    assert(s == Seq::<u8>::empty() + e1 + (e2 + e3)) by {
        assert(s =~= Seq::<u8>::empty() + e1 + (e2 + e3));
    }
    lemma_extract(s, Seq::<u8>::empty(), e1, e2 + e3);
    lemma_dec_u64_at(s, 0, m.node_id.id);
    assert(s == e1 + e2 + e3) by {
        assert(s =~= e1 + e2 + e3);
    }
    lemma_extract(s, e1, e2, e3);
    lemma_dec_u64_at(s, 8, m.current_term);
    assert(s[16] == e3[0]) by {
        assert(s =~= (e1 + e2) + e3);
    }
    assert(m == (VoteResponse { node_id: NodeId { id: m.node_id.id }, current_term: m.current_term, ok: m.ok }));
}

pub fn encode_vote_response(m: &VoteResponse) -> (r: Vec<u8>)
    ensures
        r@ == enc_vote_response(*m),
{
    let mut out: Vec<u8> = Vec::new();
    push_u64(&mut out, m.node_id.id);
    push_u64(&mut out, m.current_term);
    push_bool(&mut out, m.ok);
    proof {
        assert(out@ =~= enc_vote_response(*m));
    }
    out
}

/// Decodes a vote response; `Err(Decode)` exactly when the bytes are not an
/// encoding of one.
pub fn decode_vote_response(bytes: &Vec<u8>) -> (r: Result<VoteResponse, RaftError>)
    ensures
        match dec_vote_response(bytes@) {
            Some(m) => r matches Ok(x) && x == m,
            None => r matches Err(e) && e == RaftError::Decode,
        },
{
    let (nid, p1) = match read_u64(bytes, 0) {
        Ok(x) => x,
        Err(e) => {
            return Err(e);
        },
    };
    let (ct, p2) = match read_u64(bytes, p1) {
        Ok(x) => x,
        Err(e) => {
            return Err(e);
        },
    };
    let (ok, p3) = match read_bool(bytes, p2) {
        Ok(x) => x,
        Err(e) => {
            return Err(e);
        },
    };
    if p3 != bytes.len() {
        return Err(RaftError::Decode);
    }
    Ok(VoteResponse { node_id: NodeId { id: nid }, current_term: ct, ok })
}

pub open spec fn enc_log_response(m: LogResponse) -> Seq<u8> {
    enc_u64(m.node_id.id) + enc_u64(m.current_term) + enc_u64(m.ack) + enc_bool(m.ok)
}

pub open spec fn dec_log_response(s: Seq<u8>) -> Option<LogResponse> {
    match dec_u64(s, 0) {
        Some((nid, p1)) => match dec_u64(s, p1) {
            Some((ct, p2)) => match dec_u64(s, p2) {
                Some((ack, p3)) => match dec_bool(s, p3) {
                    Some((ok, p4)) => if p4 == s.len() {
                        Some(LogResponse { node_id: NodeId { id: nid }, current_term: ct, ack, ok })
                    } else {
                        None
                    },
                    None => None,
                },
                None => None,
            },
            None => None,
        },
        None => None,
    }
}

/// A log response decodes back to itself.
pub proof fn lemma_log_response_round_trip(m: LogResponse)
    ensures
        dec_log_response(enc_log_response(m)) == Some(m),
{
    let s = enc_log_response(m);
    let e1 = enc_u64(m.node_id.id);
    let e2 = enc_u64(m.current_term);
    let e3 = enc_u64(m.ack);
    let e4 = enc_bool(m.ok);
    assert(s == Seq::<u8>::empty() + e1 + (e2 + e3 + e4)) by {
        assert(s =~= Seq::<u8>::empty() + e1 + (e2 + e3 + e4));
    }
    lemma_extract(s, Seq::<u8>::empty(), e1, e2 + e3 + e4);
    lemma_dec_u64_at(s, 0, m.node_id.id);
    assert(s == e1 + e2 + (e3 + e4)) by {
        assert(s =~= e1 + e2 + (e3 + e4));
    }
    lemma_extract(s, e1, e2, e3 + e4);
    lemma_dec_u64_at(s, 8, m.current_term);
    assert(s == (e1 + e2) + e3 + e4) by {
        assert(s =~= (e1 + e2) + e3 + e4);
    }
    lemma_extract(s, e1 + e2, e3, e4);
    lemma_dec_u64_at(s, 16, m.ack);
    assert(s[24] == e4[0]) by {
        assert(s =~= ((e1 + e2) + e3) + e4);
    }
    assert(m == (LogResponse { node_id: NodeId { id: m.node_id.id }, current_term: m.current_term, ack: m.ack, ok: m.ok }));
}

pub fn encode_log_response(m: &LogResponse) -> (r: Vec<u8>)
    ensures
        r@ == enc_log_response(*m),
{
    let mut out: Vec<u8> = Vec::new();
    push_u64(&mut out, m.node_id.id);
    push_u64(&mut out, m.current_term);
    push_u64(&mut out, m.ack);
    push_bool(&mut out, m.ok);
    proof {
        assert(out@ =~= enc_log_response(*m));
    }
    out
}

/// Decodes a log response; `Err(Decode)` exactly when the bytes are not an
/// encoding of one.
pub fn decode_log_response(bytes: &Vec<u8>) -> (r: Result<LogResponse, RaftError>)
    ensures
        match dec_log_response(bytes@) {
            Some(m) => r matches Ok(x) && x == m,
            None => r matches Err(e) && e == RaftError::Decode,
        },
{
    let (nid, p1) = match read_u64(bytes, 0) {
        Ok(x) => x,
        Err(e) => {
            return Err(e);
        },
    };
    let (ct, p2) = match read_u64(bytes, p1) {
        Ok(x) => x,
        Err(e) => {
            return Err(e);
        },
    };
    let (ack, p3) = match read_u64(bytes, p2) {
        Ok(x) => x,
        Err(e) => {
            return Err(e);
        },
    };
    let (ok, p4) = match read_bool(bytes, p3) {
        Ok(x) => x,
        Err(e) => {
            return Err(e);
        },
    };
    if p4 != bytes.len() {
        return Err(RaftError::Decode);
    }
    Ok(LogResponse { node_id: NodeId { id: nid }, current_term: ct, ack, ok })
}

pub open spec fn enc_log_request(m: LogRequestV) -> Seq<u8> {
    enc_u64(m.leader_id.id) + enc_u64(m.current_term) + enc_u64(m.prefix_len) + enc_u64(
        m.prefix_term,
    ) + enc_u64(m.commit_length) + enc_logs(m.suffix)
}

pub open spec fn dec_log_request(s: Seq<u8>) -> Option<LogRequestV> {
    match dec_u64(s, 0) {
        Some((lid, p1)) => match dec_u64(s, p1) {
            Some((ct, p2)) => match dec_u64(s, p2) {
                Some((pl, p3)) => match dec_u64(s, p3) {
                    Some((pt, p4)) => match dec_u64(s, p4) {
                        Some((cl, p5)) => match dec_logs(s, p5) {
                            Some((suffix, p6)) => if p6 == s.len() {
                                Some(
                                    LogRequestV {
                                        leader_id: NodeId { id: lid },
                                        current_term: ct,
                                        prefix_len: pl,
                                        prefix_term: pt,
                                        commit_length: cl,
                                        suffix,
                                    },
                                )
                            } else {
                                None
                            },
                            None => None,
                        },
                        None => None,
                    },
                    None => None,
                },
                None => None,
            },
            None => None,
        },
        None => None,
    }
}

/// A log request whose suffix is well formed decodes back to itself.
#[verifier::rlimit(60)]
pub proof fn lemma_log_request_round_trip(m: LogRequestV)
    requires
        wf_logs(m.suffix),
    ensures
        dec_log_request(enc_log_request(m)) == Some(m),
{
    let s = enc_log_request(m);
    let e1 = enc_u64(m.leader_id.id);
    let e2 = enc_u64(m.current_term);
    let e3 = enc_u64(m.prefix_len);
    let e4 = enc_u64(m.prefix_term);
    let e5 = enc_u64(m.commit_length);
    let e6 = enc_logs(m.suffix);
    assert(s == Seq::<u8>::empty() + e1 + (e2 + e3 + e4 + e5 + e6)) by {
        assert(s =~= Seq::<u8>::empty() + e1 + (e2 + e3 + e4 + e5 + e6));
    }
    lemma_extract(s, Seq::<u8>::empty(), e1, e2 + e3 + e4 + e5 + e6);
    lemma_dec_u64_at(s, 0, m.leader_id.id);
    assert(s == e1 + e2 + (e3 + e4 + e5 + e6)) by {
        assert(s =~= e1 + e2 + (e3 + e4 + e5 + e6));
    }
    lemma_extract(s, e1, e2, e3 + e4 + e5 + e6);
    lemma_dec_u64_at(s, 8, m.current_term);
    assert(s == (e1 + e2) + e3 + (e4 + e5 + e6)) by {
        assert(s =~= (e1 + e2) + e3 + (e4 + e5 + e6));
    }
    lemma_extract(s, e1 + e2, e3, e4 + e5 + e6);
    lemma_dec_u64_at(s, 16, m.prefix_len);
    assert(s == (e1 + e2 + e3) + e4 + (e5 + e6)) by {
        assert(s =~= (e1 + e2 + e3) + e4 + (e5 + e6));
    }
    lemma_extract(s, e1 + e2 + e3, e4, e5 + e6);
    lemma_dec_u64_at(s, 24, m.prefix_term);
    assert(s == (e1 + e2 + e3 + e4) + e5 + e6) by {
        assert(s =~= (e1 + e2 + e3 + e4) + e5 + e6);
    }
    lemma_extract(s, e1 + e2 + e3 + e4, e5, e6);
    lemma_dec_u64_at(s, 32, m.commit_length);
    assert(s == (e1 + e2 + e3 + e4 + e5) + e6 + Seq::<u8>::empty()) by {
        assert(s =~= (e1 + e2 + e3 + e4 + e5) + e6 + Seq::<u8>::empty());
    }
    lemma_extract(s, e1 + e2 + e3 + e4 + e5, e6, Seq::<u8>::empty());
    lemma_dec_logs_at(s, 40, m.suffix);
    assert(m == (LogRequestV {
        leader_id: NodeId { id: m.leader_id.id },
        current_term: m.current_term,
        prefix_len: m.prefix_len,
        prefix_term: m.prefix_term,
        commit_length: m.commit_length,
        suffix: m.suffix,
    }));
}

pub fn encode_log_request(m: &LogRequest) -> (r: Vec<u8>)
    ensures
        r@ == enc_log_request(m@),
{
    let mut out: Vec<u8> = Vec::new();
    push_u64(&mut out, m.leader_id.id);
    push_u64(&mut out, m.current_term);
    push_u64(&mut out, m.prefix_len);
    push_u64(&mut out, m.prefix_term);
    push_u64(&mut out, m.commit_length);
    push_logs(&mut out, &m.suffix);
    proof {
        assert(out@ =~= enc_log_request(m@));
    }
    out
}

/// Decodes a log request; `Err(Decode)` exactly when the bytes are not an
/// encoding of one.
pub fn decode_log_request(bytes: &Vec<u8>) -> (r: Result<LogRequest, RaftError>)
    ensures
        match dec_log_request(bytes@) {
            Some(m) => r matches Ok(x) && x@ == m,
            None => r matches Err(e) && e == RaftError::Decode,
        },
{
    let (lid, p1) = match read_u64(bytes, 0) {
        Ok(x) => x,
        Err(e) => {
            return Err(e);
        },
    };
    let (ct, p2) = match read_u64(bytes, p1) {
        Ok(x) => x,
        Err(e) => {
            return Err(e);
        },
    };
    let (pl, p3) = match read_u64(bytes, p2) {
        Ok(x) => x,
        Err(e) => {
            return Err(e);
        },
    };
    let (pt, p4) = match read_u64(bytes, p3) {
        Ok(x) => x,
        Err(e) => {
            return Err(e);
        },
    };
    let (cl, p5) = match read_u64(bytes, p4) {
        Ok(x) => x,
        Err(e) => {
            return Err(e);
        },
    };
    let (suffix, p6) = match read_logs(bytes, p5) {
        Ok(x) => x,
        Err(e) => {
            return Err(e);
        },
    };
    if p6 != bytes.len() {
        return Err(RaftError::Decode);
    }
    Ok(LogRequest {
        leader_id: NodeId { id: lid },
        current_term: ct,
        prefix_len: pl,
        prefix_term: pt,
        commit_length: cl,
        suffix,
    })
}

pub open spec fn enc_broadcast_request(payload: Seq<u8>) -> Seq<u8> {
    enc_bytes(payload)
}

pub open spec fn dec_broadcast_request(s: Seq<u8>) -> Option<Seq<u8>> {
    match dec_bytes(s, 0) {
        Some((b, p)) => if p == s.len() {
            Some(b)
        } else {
            None
        },
        None => None,
    }
}

/// A forwarded payload decodes back to itself.
pub proof fn lemma_broadcast_request_round_trip(payload: Seq<u8>)
    requires
        payload.len() <= u64::MAX,
    ensures
        dec_broadcast_request(enc_broadcast_request(payload)) == Some(payload),
{
    let s = enc_broadcast_request(payload);
    assert(s.subrange(0, s.len() as int) =~= s);
    lemma_dec_bytes_at(s, 0, payload);
}

pub fn encode_broadcast_request(m: &BroadcastMsgRequest) -> (r: Vec<u8>)
    ensures
        r@ == enc_broadcast_request(m@),
{
    let mut out: Vec<u8> = Vec::new();
    push_bytes(&mut out, &m.0);
    proof {
        assert(out@ =~= enc_broadcast_request(m@));
    }
    out
}

/// Decodes a forwarded payload; `Err(Decode)` exactly when the bytes are
/// not an encoding of one.
pub fn decode_broadcast_request(bytes: &Vec<u8>) -> (r: Result<BroadcastMsgRequest, RaftError>)
    ensures
        match dec_broadcast_request(bytes@) {
            Some(b) => r matches Ok(x) && x@ == b,
            None => r matches Err(e) && e == RaftError::Decode,
        },
{
    let (b, p) = match read_bytes(bytes, 0) {
        Ok(x) => x,
        Err(e) => {
            return Err(e);
        },
    };
    if p != bytes.len() {
        return Err(RaftError::Decode);
    }
    Ok(BroadcastMsgRequest(b))
}

pub open spec fn enc_msg_payload(m: MsgPayloadV) -> Seq<u8> {
    enc_bytes(m.nonce) + enc_bytes(m.payload)
}

pub open spec fn dec_msg_payload(s: Seq<u8>) -> Option<MsgPayloadV> {
    match dec_bytes(s, 0) {
        Some((nonce, p1)) => match dec_bytes(s, p1) {
            Some((payload, p2)) => if p2 == s.len() {
                Some(MsgPayloadV { nonce, payload })
            } else {
                None
            },
            None => None,
        },
        None => None,
    }
}

/// A sealed envelope decodes back to itself.
pub proof fn lemma_msg_payload_round_trip(m: MsgPayloadV)
    requires
        m.nonce.len() <= u64::MAX,
        m.payload.len() <= u64::MAX,
    ensures
        dec_msg_payload(enc_msg_payload(m)) == Some(m),
{
    let s = enc_msg_payload(m);
    let e1 = enc_bytes(m.nonce);
    let e2 = enc_bytes(m.payload);
    assert(s == Seq::<u8>::empty() + e1 + e2) by {
        assert(s =~= Seq::<u8>::empty() + e1 + e2);
    }
    lemma_extract(s, Seq::<u8>::empty(), e1, e2);
    lemma_dec_bytes_at(s, 0, m.nonce);
    assert(s == e1 + e2 + Seq::<u8>::empty()) by {
        assert(s =~= e1 + e2 + Seq::<u8>::empty());
    }
    lemma_extract(s, e1, e2, Seq::<u8>::empty());
    lemma_dec_bytes_at(s, e1.len() as int, m.payload);
    assert(m == (MsgPayloadV { nonce: m.nonce, payload: m.payload }));
}

pub fn encode_msg_payload(m: &MsgPayload) -> (r: Vec<u8>)
    ensures
        r@ == enc_msg_payload(m@),
{
    let mut out: Vec<u8> = Vec::new();
    push_bytes(&mut out, &m.nonce);
    push_bytes(&mut out, &m.payload);
    proof {
        assert(out@ =~= enc_msg_payload(m@));
    }
    out
}

/// Decodes a sealed envelope; `Err(Decode)` exactly when the bytes are not
/// an encoding of one.
pub fn decode_msg_payload(bytes: &Vec<u8>) -> (r: Result<MsgPayload, RaftError>)
    ensures
        match dec_msg_payload(bytes@) {
            Some(m) => r matches Ok(x) && x@ == m,
            None => r matches Err(e) && e == RaftError::Decode,
        },
{
    let (nonce, p1) = match read_bytes(bytes, 0) {
        Ok(x) => x,
        Err(e) => {
            return Err(e);
        },
    };
    let (payload, p2) = match read_bytes(bytes, p1) {
        Ok(x) => x,
        Err(e) => {
            return Err(e);
        },
    };
    if p2 != bytes.len() {
        return Err(RaftError::Decode);
    }
    Ok(MsgPayload { nonce, payload })
}

// ---------------------------------------------------------------------------
// the transport envelope
// ---------------------------------------------------------------------------

pub open spec fn enc_net_msg(m: NetMsgV) -> Seq<u8> {
    enc_u32(m.id) + enc_opt_node(m.recipient_id) + enc_bytes(m.payload) + seq![
        spec_method_tag(m.method),
    ]
}

pub open spec fn dec_net_msg(s: Seq<u8>) -> Option<NetMsgV> {
    match dec_u32(s, 0) {
        Some((id, p1)) => match dec_opt_node(s, p1) {
            Some((recipient_id, p2)) => match dec_bytes(s, p2) {
                Some((payload, p3)) => if p3 + 1 == s.len() {
                    match spec_tag_method(s[p3]) {
                        Some(method) => Some(NetMsgV { id, recipient_id, payload, method }),
                        None => None,
                    }
                } else {
                    None
                },
                None => None,
            },
            None => None,
        },
        None => None,
    }
}

/// A transport envelope decodes back to itself.
#[verifier::rlimit(60)]
pub proof fn lemma_net_msg_round_trip(m: NetMsgV)
    requires
        m.payload.len() <= u64::MAX,
    ensures
        dec_net_msg(enc_net_msg(m)) == Some(m),
{
    let s = enc_net_msg(m);
    let e1 = enc_u32(m.id);
    let e2 = enc_opt_node(m.recipient_id);
    let e3 = enc_bytes(m.payload);
    let e4 = seq![spec_method_tag(m.method)];
    assert(s == Seq::<u8>::empty() + e1 + (e2 + e3 + e4)) by {
        assert(s =~= Seq::<u8>::empty() + e1 + (e2 + e3 + e4));
    }
    lemma_extract(s, Seq::<u8>::empty(), e1, e2 + e3 + e4);
    lemma_dec_u32_at(s, 0, m.id);
    assert(s == e1 + e2 + (e3 + e4)) by {
        assert(s =~= e1 + e2 + (e3 + e4));
    }
    lemma_extract(s, e1, e2, e3 + e4);
    lemma_dec_opt_node_at(s, 4, m.recipient_id);
    let p2 = 4 + e2.len() as int;
    assert(s == (e1 + e2) + e3 + e4) by {
        assert(s =~= (e1 + e2) + e3 + e4);
    }
    lemma_extract(s, e1 + e2, e3, e4);
    lemma_dec_bytes_at(s, p2, m.payload);
    let p3 = p2 + e3.len() as int;
    assert(s[p3] == spec_method_tag(m.method)) by {
        assert(s =~= ((e1 + e2) + e3) + e4);
    }
    assert(spec_tag_method(spec_method_tag(m.method)) == Some(m.method));
    assert(m == (NetMsgV {
        id: m.id,
        recipient_id: m.recipient_id,
        payload: m.payload,
        method: m.method,
    }));
}

pub fn encode_net_msg(m: &NetMsg) -> (r: Vec<u8>)
    ensures
        r@ == enc_net_msg(m@),
{
    let mut out: Vec<u8> = Vec::new();
    push_u32(&mut out, m.id);
    push_opt_node(&mut out, &m.recipient_id);
    push_bytes(&mut out, &m.payload);
    out.push(method_tag(m.method));
    proof {
        assert(out@ =~= enc_net_msg(m@));
    }
    out
}

/// Decodes a transport envelope; `Err(Decode)` exactly when the bytes are
/// not an encoding of one.
pub fn decode_net_msg(bytes: &Vec<u8>) -> (r: Result<NetMsg, RaftError>)
    ensures
        match dec_net_msg(bytes@) {
            Some(m) => r matches Ok(x) && x@ == m,
            None => r matches Err(e) && e == RaftError::Decode,
        },
{
    let (id, p1) = match read_u32(bytes, 0) {
        Ok(x) => x,
        Err(e) => {
            return Err(e);
        },
    };
    let (recipient_id, p2) = match read_opt_node(bytes, p1) {
        Ok(x) => x,
        Err(e) => {
            return Err(e);
        },
    };
    let (payload, p3) = match read_bytes(bytes, p2) {
        Ok(x) => x,
        Err(e) => {
            return Err(e);
        },
    };
    if !(p3 < bytes.len() && bytes.len() - p3 == 1) {
        return Err(RaftError::Decode);
    }
    let method = match tag_method(bytes[p3]) {
        Some(m) => m,
        None => {
            return Err(RaftError::Decode);
        },
    };
    Ok(NetMsg { id, recipient_id, payload, method })
}


/// A successful list parse never runs past the end of the bytes.
pub proof fn lemma_dec_log_list_bounds(s: Seq<u8>, pos: int, n: nat)
    requires
        0 <= pos <= s.len(),
    ensures
        match dec_log_list(s, pos, n) {
            Some(vp) => pos <= vp.1 <= s.len(),
            None => true,
        },
    decreases n,
{
    if n == 0 {
    } else {
        match dec_log(s, pos) {
            Some((e, p)) => {
                lemma_dec_log_list_bounds(s, p, (n - 1) as nat);
            },
            None => {},
        }
    }
}

} // verus!
