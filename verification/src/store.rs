//! The model of the durable store: five logical tables (term, vote, log,
//! commit length, commits mirror) persisted as an append-only stream of
//! records. Loading replays the records in order; a value read back is the
//! value last written.

use vstd::prelude::*;

use crate::codec::{
    dec_bytes, dec_log, dec_logs, dec_opt_node, dec_u64, enc_bytes, enc_log, enc_logs,
    enc_opt_node, enc_u64, lemma_dec_bytes_at, lemma_dec_log_at, lemma_dec_logs_at,
    lemma_dec_log_list_bounds, lemma_dec_opt_node_at, lemma_dec_u64_at, push_bytes, push_log, push_logs, push_u64,
    push_opt_node, read_bytes, read_log, read_logs, read_opt_node, read_u64, wf_log, wf_logs,
};
use crate::logs::Logs;
use crate::types::{Log, LogV, NodeId, RaftError, StoreAction, StoreActionV};

verus! {

/// The durable fields as loaded at startup.
#[derive(Debug)]
pub struct DurableState {
    pub current_term: u64,
    pub voted_for: Option<NodeId>,
    pub logs: Logs,
    pub commit_length: u64,
    pub commits: Vec<Vec<u8>>,
}

/// Mathematical image of the durable fields.
#[verifier::ext_equal]
pub struct DurableV {
    pub current_term: u64,
    pub voted_for: Option<NodeId>,
    pub log: Seq<LogV>,
    pub commit_length: u64,
    pub commits: Seq<Seq<u8>>,
}

impl View for DurableState {
    type V = DurableV;

    open spec fn view(&self) -> DurableV {
        DurableV {
            current_term: self.current_term,
            voted_for: self.voted_for,
            log: self.logs@,
            commit_length: self.commit_length,
            commits: self.commits.deep_view(),
        }
    }
}

/// The image of a store nothing was ever written to.
pub open spec fn default_durable() -> DurableV {
    DurableV {
        current_term: 0,
        voted_for: None,
        log: Seq::empty(),
        commit_length: 0,
        commits: Seq::empty(),
    }
}

/// What one write does to the durable image.
pub open spec fn apply_store(d: DurableV, a: StoreActionV) -> DurableV {
    match a {
        StoreActionV::PutTerm(t) => DurableV { current_term: t, ..d },
        StoreActionV::PutVote(v) => DurableV { voted_for: v, ..d },
        StoreActionV::AppendLog(e) => DurableV { log: d.log.push(e), ..d },
        StoreActionV::ReplaceLog(es) => DurableV { log: es, ..d },
        StoreActionV::PutCommitLength(l) => DurableV { commit_length: l, ..d },
        StoreActionV::AppendCommit(p) => DurableV { commits: d.commits.push(p), ..d },
    }
}

/// The image after a history of writes, replayed in order.
pub open spec fn replay(d: DurableV, h: Seq<StoreActionV>) -> DurableV
    decreases h.len(),
{
    if h.len() == 0 {
        d
    } else {
        apply_store(replay(d, h.drop_last()), h.last())
    }
}

/// A write whose record is well defined: every length fits its prefix.
pub open spec fn wf_store_action(a: StoreActionV) -> bool {
    match a {
        StoreActionV::PutTerm(_) => true,
        StoreActionV::PutVote(_) => true,
        StoreActionV::AppendLog(e) => wf_log(e),
        StoreActionV::ReplaceLog(es) => wf_logs(es),
        StoreActionV::PutCommitLength(_) => true,
        StoreActionV::AppendCommit(p) => p.len() <= u64::MAX,
    }
}

pub open spec fn wf_store_history(h: Seq<StoreActionV>) -> bool {
    forall|i: int| 0 <= i < h.len() ==> wf_store_action(#[trigger] h[i])
}

/// One record: a tag byte and the body of the write.
pub open spec fn enc_store_action(a: StoreActionV) -> Seq<u8> {
    match a {
        StoreActionV::PutTerm(t) => seq![0u8] + enc_u64(t),
        StoreActionV::PutVote(v) => seq![1u8] + enc_opt_node(v),
        StoreActionV::AppendLog(e) => seq![2u8] + enc_log(e),
        StoreActionV::ReplaceLog(es) => seq![3u8] + enc_logs(es),
        StoreActionV::PutCommitLength(l) => seq![4u8] + enc_u64(l),
        StoreActionV::AppendCommit(p) => seq![5u8] + enc_bytes(p),
    }
}

/// The records of a history, in order.
pub open spec fn enc_store_list(h: Seq<StoreActionV>) -> Seq<u8>
    decreases h.len(),
{
    if h.len() == 0 {
        Seq::empty()
    } else {
        enc_store_action(h.first()) + enc_store_list(h.drop_first())
    }
}

pub open spec fn dec_store_action(s: Seq<u8>, pos: int) -> Option<(StoreActionV, int)> {
    if 0 <= pos && pos < s.len() {
        let body = pos + 1;
        if s[pos] == 0 {
            match dec_u64(s, body) {
                Some((t, p)) => Some((StoreActionV::PutTerm(t), p)),
                None => None,
            }
        } else if s[pos] == 1 {
            match dec_opt_node(s, body) {
                Some((v, p)) => Some((StoreActionV::PutVote(v), p)),
                None => None,
            }
        } else if s[pos] == 2 {
            match dec_log(s, body) {
                Some((e, p)) => Some((StoreActionV::AppendLog(e), p)),
                None => None,
            }
        } else if s[pos] == 3 {
            match dec_logs(s, body) {
                Some((es, p)) => Some((StoreActionV::ReplaceLog(es), p)),
                None => None,
            }
        } else if s[pos] == 4 {
            match dec_u64(s, body) {
                Some((l, p)) => Some((StoreActionV::PutCommitLength(l), p)),
                None => None,
            }
        } else if s[pos] == 5 {
            match dec_bytes(s, body) {
                Some((p2, p)) => Some((StoreActionV::AppendCommit(p2), p)),
                None => None,
            }
        } else {
            None
        }
    } else {
        None
    }
}

/// The whole history a record stream holds, or `None` if it is malformed.
pub open spec fn dec_store_list(s: Seq<u8>, pos: int) -> Option<Seq<StoreActionV>>
    decreases s.len() - pos,
    when 0 <= pos <= s.len()
{
    if pos == s.len() {
        Some(Seq::empty())
    } else {
        match dec_store_action(s, pos) {
            Some((a, p2)) => if pos < p2 <= s.len() {
                match dec_store_list(s, p2) {
                    Some(rest) => Some(seq![a] + rest),
                    None => None,
                }
            } else {
                None
            },
            None => None,
        }
    }
}

/// Reading back one record returns the write it holds.
pub proof fn lemma_dec_store_action_at(s: Seq<u8>, pos: int, a: StoreActionV)
    requires
        0 <= pos,
        wf_store_action(a),
        pos + enc_store_action(a).len() <= s.len(),
        s.subrange(pos, pos + enc_store_action(a).len()) == enc_store_action(a),
    ensures
        dec_store_action(s, pos) == Some((a, pos + enc_store_action(a).len())),
{
    let whole = enc_store_action(a);
    let len = whole.len() as int;
    assert(s.subrange(pos, pos + len)[0] == s[pos]);
    let body = pos + 1;
    let blen = len - 1;
    match a {
        StoreActionV::PutTerm(t) => {
            assert forall|k: int| 0 <= k < blen implies #[trigger] s.subrange(body, body + blen)[k]
                == enc_u64(t)[k] by {
                assert(s.subrange(pos, pos + len)[1 + k] == s[pos + 1 + k]);
                assert(whole[1 + k] == enc_u64(t)[k]);
                assert(s.subrange(body, body + blen)[k] == s[body + k]);
            }
            assert(s.subrange(body, body + blen) =~= enc_u64(t));
            lemma_dec_u64_at(s, body, t);
        },
        StoreActionV::PutVote(v) => {
            assert forall|k: int| 0 <= k < blen implies #[trigger] s.subrange(body, body + blen)[k]
                == enc_opt_node(v)[k] by {
                assert(s.subrange(pos, pos + len)[1 + k] == s[pos + 1 + k]);
                assert(whole[1 + k] == enc_opt_node(v)[k]);
                assert(s.subrange(body, body + blen)[k] == s[body + k]);
            }
            assert(s.subrange(body, body + blen) =~= enc_opt_node(v));
            lemma_dec_opt_node_at(s, body, v);
        },
        StoreActionV::AppendLog(e) => {
            assert forall|k: int| 0 <= k < blen implies #[trigger] s.subrange(body, body + blen)[k]
                == enc_log(e)[k] by {
                assert(s.subrange(pos, pos + len)[1 + k] == s[pos + 1 + k]);
                assert(whole[1 + k] == enc_log(e)[k]);
                assert(s.subrange(body, body + blen)[k] == s[body + k]);
            }
            assert(s.subrange(body, body + blen) =~= enc_log(e));
            lemma_dec_log_at(s, body, e);
        },
        StoreActionV::ReplaceLog(es) => {
            assert forall|k: int| 0 <= k < blen implies #[trigger] s.subrange(body, body + blen)[k]
                == enc_logs(es)[k] by {
                assert(s.subrange(pos, pos + len)[1 + k] == s[pos + 1 + k]);
                assert(whole[1 + k] == enc_logs(es)[k]);
                assert(s.subrange(body, body + blen)[k] == s[body + k]);
            }
            assert(s.subrange(body, body + blen) =~= enc_logs(es));
            lemma_dec_logs_at(s, body, es);
        },
        StoreActionV::PutCommitLength(l) => {
            assert forall|k: int| 0 <= k < blen implies #[trigger] s.subrange(body, body + blen)[k]
                == enc_u64(l)[k] by {
                assert(s.subrange(pos, pos + len)[1 + k] == s[pos + 1 + k]);
                assert(whole[1 + k] == enc_u64(l)[k]);
                assert(s.subrange(body, body + blen)[k] == s[body + k]);
            }
            assert(s.subrange(body, body + blen) =~= enc_u64(l));
            lemma_dec_u64_at(s, body, l);
        },
        StoreActionV::AppendCommit(p) => {
            assert forall|k: int| 0 <= k < blen implies #[trigger] s.subrange(body, body + blen)[k]
                == enc_bytes(p)[k] by {
                assert(s.subrange(pos, pos + len)[1 + k] == s[pos + 1 + k]);
                assert(whole[1 + k] == enc_bytes(p)[k]);
                assert(s.subrange(body, body + blen)[k] == s[body + k]);
            }
            assert(s.subrange(body, body + blen) =~= enc_bytes(p));
            lemma_dec_bytes_at(s, body, p);
        },
    }
}

/// Every record is at least its tag byte long.
pub proof fn lemma_enc_store_action_len(a: StoreActionV)
    ensures
        enc_store_action(a).len() >= 1,
{
}

/// Reading back an encoded history returns the history.
pub proof fn lemma_dec_store_list_at(s: Seq<u8>, pos: int, h: Seq<StoreActionV>)
    requires
        0 <= pos,
        wf_store_history(h),
        s.len() == pos + enc_store_list(h).len(),
        s.subrange(pos, s.len() as int) == enc_store_list(h),
    ensures
        dec_store_list(s, pos) == Some(h),
    decreases h.len(),
{
    if h.len() == 0 {
        assert(pos == s.len());
        assert(h =~= Seq::<StoreActionV>::empty());
    } else {
        let whole = enc_store_list(h);
        let len = whole.len() as int;
        let first = h.first();
        let e1 = enc_store_action(first);
        let l1 = e1.len() as int;
        assert(whole == e1 + enc_store_list(h.drop_first()));
        assert forall|k: int| 0 <= k < l1 implies #[trigger] s.subrange(pos, pos + l1)[k]
            == e1[k] by {
            assert(s.subrange(pos, s.len() as int)[k] == s[pos + k]);
            assert(whole[k] == e1[k]);
            assert(s.subrange(pos, pos + l1)[k] == s[pos + k]);
        }
        assert(s.subrange(pos, pos + l1) =~= e1);
        assert(wf_store_action(first));
        lemma_dec_store_action_at(s, pos, first);
        let p2 = pos + l1;
        lemma_enc_store_action_len(first);
        let rest = enc_store_list(h.drop_first());
        let lr = rest.len() as int;
        assert forall|k: int| 0 <= k < lr implies #[trigger] s.subrange(p2, s.len() as int)[k]
            == rest[k] by {
            assert(s.subrange(pos, s.len() as int)[l1 + k] == s[pos + l1 + k]);
            assert(whole[l1 + k] == rest[k]);
            assert(s.subrange(p2, s.len() as int)[k] == s[p2 + k]);
        }
        assert(s.subrange(p2, s.len() as int) =~= rest);
        assert(wf_store_history(h.drop_first())) by {
            assert(forall|i: int|
                0 <= i < h.drop_first().len() ==> #[trigger] h.drop_first()[i] == h[i + 1]);
        }
        lemma_dec_store_list_at(s, p2, h.drop_first());
        assert(seq![first] + h.drop_first() =~= h);
    }
}

/// The restart property of the store: the record stream a history of
/// writes lays down decodes back to exactly that history, so replaying it
/// rebuilds the image the writer last had.
pub proof fn lemma_store_round_trip(h: Seq<StoreActionV>)
    requires
        wf_store_history(h),
    ensures
        dec_store_list(enc_store_list(h), 0) == Some(h),
{
    let s = enc_store_list(h);
    assert(s.subrange(0, s.len() as int) =~= s);
    lemma_dec_store_list_at(s, 0, h);
}

/// Encodes one write as a record to append to the store file.
pub fn encode_store_action(a: &StoreAction) -> (r: Vec<u8>)
    ensures
        r@ == enc_store_action(a@),
{
    let mut out: Vec<u8> = Vec::new();
    match a {
        StoreAction::PutTerm(t) => {
            out.push(0u8);
            push_u64(&mut out, *t);
        },
        StoreAction::PutVote(v) => {
            out.push(1u8);
            push_opt_node(&mut out, v);
        },
        StoreAction::AppendLog(e) => {
            out.push(2u8);
            push_log(&mut out, e);
        },
        StoreAction::ReplaceLog(es) => {
            out.push(3u8);
            push_logs(&mut out, es);
        },
        StoreAction::PutCommitLength(l) => {
            out.push(4u8);
            push_u64(&mut out, *l);
        },
        StoreAction::AppendCommit(p) => {
            out.push(5u8);
            push_bytes(&mut out, p);
        },
    }
    proof {
        assert(out@ =~= enc_store_action(a@));
    }
    out
}

/// Reads one record; `Err(Decode)` exactly when the bytes at `pos` are not
/// a record.
pub fn decode_store_action(bytes: &Vec<u8>, pos: usize) -> (r: Result<
    (StoreAction, usize),
    RaftError,
>)
    ensures
        match dec_store_action(bytes@, pos as int) {
            Some(vp) => r matches Ok(x) && x.0@ == vp.0 && x.1 == vp.1 && pos < x.1 <= bytes@.len(),
            None => r matches Err(e) && e == RaftError::Decode,
        },
{
    if pos >= bytes.len() {
        return Err(RaftError::Decode);
    }
    let tag = bytes[pos];
    let body = pos + 1;
    if tag == 0 {
        match read_u64(bytes, body) {
            Ok((t, p)) => Ok((StoreAction::PutTerm(t), p)),
            Err(e) => Err(e),
        }
    } else if tag == 1 {
        match read_opt_node(bytes, body) {
            Ok((v, p)) => Ok((StoreAction::PutVote(v), p)),
            Err(e) => Err(e),
        }
    } else if tag == 2 {
        match read_log(bytes, body) {
            Ok((e, p)) => Ok((StoreAction::AppendLog(e), p)),
            Err(e) => Err(e),
        }
    } else if tag == 3 {
        match read_logs(bytes, body) {
            Ok((es, p)) => {
                proof {
                    let (n0, pn) = crate::codec::dec_u64(bytes@, body as int).unwrap();
                    crate::codec::lemma_dec_log_list_bounds(bytes@, pn, n0 as nat);
                }
                Ok((StoreAction::ReplaceLog(es), p))
            },
            Err(e) => Err(e),
        }
    } else if tag == 4 {
        match read_u64(bytes, body) {
            Ok((l, p)) => Ok((StoreAction::PutCommitLength(l), p)),
            Err(e) => Err(e),
        }
    } else if tag == 5 {
        match read_bytes(bytes, body) {
            Ok((p2, p)) => Ok((StoreAction::AppendCommit(p2), p)),
            Err(e) => Err(e),
        }
    } else {
        Err(RaftError::Decode)
    }
}

/// Applies one write to an in-memory copy of the durable fields.
pub fn apply_store_exec(d: &mut DurableState, a: StoreAction)
    ensures
        final(d)@ == apply_store(old(d)@, a@),
{
    match a {
        StoreAction::PutTerm(t) => {
            d.current_term = t;
        },
        StoreAction::PutVote(v) => {
            d.voted_for = v;
        },
        StoreAction::AppendLog(e) => {
            d.logs.0.push(e);
            proof {
                assert(d.logs@ =~~= old(d).logs@.push(
                    apply_store(old(d)@, a@).log.last(),
                ));
                assert(d@ =~~= apply_store(old(d)@, a@));
            }
        },
        StoreAction::ReplaceLog(es) => {
            d.logs = Logs(es);
        },
        StoreAction::PutCommitLength(l) => {
            d.commit_length = l;
        },
        StoreAction::AppendCommit(p) => {
            let ghost c0 = d.commits.deep_view();
            d.commits.push(p);
            proof {
                assert forall|j: int| 0 <= j < d.commits.deep_view().len() implies
                    d.commits.deep_view()[j] == c0.push(p@)[j] by {
                    assert(d.commits.deep_view()[j] == d.commits@[j]@);
                    if j < c0.len() {
                        assert(d.commits@[j] == old(d).commits@[j]);
                        assert(c0[j] == old(d).commits@[j]@);
                    }
                }
                assert(d.commits.deep_view() =~~= c0.push(p@));
                assert(d@ =~~= apply_store(old(d)@, a@));
            }
        },
    }
    proof {
        assert(d@ =~~= apply_store(old(d)@, a@));
    }
}

/// An empty durable image: the defaults a replica starts from when the
/// store file is absent.
pub fn empty_store() -> (r: DurableState)
    ensures
        r@ == default_durable(),
{
    let r = DurableState {
        current_term: 0,
        voted_for: None,
        logs: Logs(Vec::new()),
        commit_length: 0,
        commits: Vec::new(),
    };
    proof {
        assert(r.logs@ =~~= Seq::<LogV>::empty());
        assert(r.commits.deep_view() =~~= Seq::<Seq<u8>>::empty());
        assert(r@ =~~= default_durable());
    }
    r
}

/// Replays a store file. `Err(Decode)` exactly when the bytes are not a
/// record stream; otherwise the result is the image the writes left.
pub fn load_store(bytes: &Vec<u8>) -> (r: Result<DurableState, RaftError>)
    ensures
        match dec_store_list(bytes@, 0) {
            Some(h) => r matches Ok(d) && d@ == replay(default_durable(), h),
            None => r matches Err(e) && e == RaftError::Decode,
        },
{
    let mut d = empty_store();
    let mut pos: usize = 0;
    let ghost mut hist: Seq<StoreActionV> = Seq::empty();
    proof {
        assert(replay(default_durable(), hist) == default_durable());
    }
    while pos < bytes.len()
        invariant
            pos <= bytes@.len(),
            d@ == replay(default_durable(), hist),
            match dec_store_list(bytes@, pos as int) {
                Some(rest) => dec_store_list(bytes@, 0) == Some(hist + rest),
                None => dec_store_list(bytes@, 0) is None,
            },
        decreases bytes@.len() - pos,
    {
        let (a, p2) = match decode_store_action(bytes, pos) {
            Ok(x) => x,
            Err(e) => {
                proof {
                    assert(dec_store_action(bytes@, pos as int) is None);
                    assert(dec_store_list(bytes@, pos as int) is None);
                }
                return Err(e);
            },
        };
        proof {
            let (av, pv) = dec_store_action(bytes@, pos as int).unwrap();
            assert(av == a@ && pv == p2 as int);
            match dec_store_list(bytes@, p2 as int) {
                Some(rest2) => {
                    assert(dec_store_list(bytes@, pos as int) == Some(seq![a@] + rest2));
                    assert(hist + (seq![a@] + rest2) =~= hist.push(a@) + rest2);
                },
                None => {
                    assert(dec_store_list(bytes@, pos as int) is None);
                },
            }
            assert(hist.push(a@).drop_last() =~= hist);
            assert(replay(default_durable(), hist.push(a@)) == apply_store(
                replay(default_durable(), hist),
                a@,
            ));
        }
        apply_store_exec(&mut d, a);
        proof {
            hist = hist.push(a@);
        }
        pos = p2;
    }
    proof {
        assert(dec_store_list(bytes@, pos as int) == Some(Seq::<StoreActionV>::empty()));
        assert(hist + Seq::<StoreActionV>::empty() =~= hist);
    }
    Ok(d)
}

} // verus!
