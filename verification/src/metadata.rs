//! Finding the metadata block in the bytes of a TorchScript model file.
//!
//! The block begins after nine bytes `0x5A` and ends with the zip data
//! descriptor signature `50 4B 07 08`. The scan reads the bytes in order with
//! two counters: one counts consecutive `0x5A` bytes and, at nine, starts
//! recording; the other counts how far the signature has matched, falls back
//! to 0 on any byte that does not continue it, and stops the scan at four.
//! Recording takes each byte before the counters look at it, so the
//! signature ends the recorded bytes.

use vstd::prelude::*;

verus! {

/// The byte that nine times in a row starts the metadata block.
pub open spec fn start_byte() -> u8 {
    0x5A
}

/// The signature that ends the metadata block.
pub open spec fn end_marker() -> Seq<u8> {
    seq![0x50u8, 0x4Bu8, 0x07u8, 0x08u8]
}

/// Where the scan stands after some bytes.
pub struct ScanState {
    /// How many `0x5A` bytes in a row were just read (below nine).
    pub start: int,
    /// How many bytes of the signature were just matched.
    pub end: int,
    pub recording: bool,
    /// The signature has been read through: the scan is over.
    pub done: bool,
    pub out: Seq<u8>,
}

pub open spec fn initial_scan() -> ScanState {
    ScanState { start: 0, end: 0, recording: false, done: false, out: seq![] }
}

/// One byte of the scan.
pub open spec fn scan_step(st: ScanState, b: u8) -> ScanState {
    if st.done {
        st
    } else {
        let out = if st.recording {
            st.out.push(b)
        } else {
            st.out
        };
        let start = if b == start_byte() {
            st.start + 1
        } else {
            0
        };
        let end = if 0 <= st.end < 4 && b == end_marker()[st.end] {
            st.end + 1
        } else {
            0
        };
        ScanState {
            start: if start == 9 {
                0
            } else {
                start
            },
            end: end,
            recording: st.recording || start == 9,
            done: end == 4,
            out: out,
        }
    }
}

/// The scan of a sequence of bytes from a given state.
pub open spec fn scan_from(st: ScanState, s: Seq<u8>) -> ScanState
    decreases s.len(),
{
    if s.len() == 0 {
        st
    } else {
        scan_step(scan_from(st, s.drop_last()), s.last())
    }
}

/// The bytes recorded by the scan of a whole file.
pub open spec fn recorded(bytes: Seq<u8>) -> Seq<u8> {
    scan_from(initial_scan(), bytes).out
}

/// The metadata block: the recorded bytes less the signature at their end,
/// or `None` where fewer than four bytes were recorded.
pub open spec fn metadata_of(bytes: Seq<u8>) -> Option<Seq<u8>> {
    let r = recorded(bytes);
    if r.len() < 4 {
        None
    } else {
        Some(r.take(r.len() - 4))
    }
}

fn end_marker_byte(i: usize) -> (b: u8)
    requires
        i < 4,
    ensures
        b == end_marker()[i as int],
{
    if i == 0 {
        0x50
    } else if i == 1 {
        0x4B
    } else if i == 2 {
        0x07
    } else {
        0x08
    }
}

/// The bytes that the scan records from the file's bytes: everything after
/// the first run of nine `0x5A` bytes, up to and including the first
/// signature `50 4B 07 08` (or to the end of the file).
pub fn scan_metadata(bytes: &[u8]) -> (r: Vec<u8>)
    ensures
        r@ == recorded(bytes@),
{
    let n = bytes.len();
    let mut out: Vec<u8> = Vec::new();
    let mut start: usize = 0;
    let mut end: usize = 0;
    let mut recording = false;
    let mut done = false;
    let mut i: usize = 0;
    while i < n && !done
        invariant
            n == bytes@.len(),
            i <= n,
            start < 9,
            end <= 4,
            !done ==> end < 4,
            scan_from(initial_scan(), bytes@.take(i as int)) == (ScanState {
                start: start as int,
                end: end as int,
                recording,
                done,
                out: out@,
            }),
        decreases n - i,
    {
        let b = bytes[i];
        if recording {
            out.push(b);
        }
        if b == 0x5A {
            start = start + 1;
            if start == 9 {
                recording = true;
                start = 0;
            }
        } else {
            start = 0;
        }
        if b == end_marker_byte(end) {
            end = end + 1;
            if end == 4 {
                done = true;
            }
        } else {
            end = 0;
        }
        proof {
            assert(bytes@.take(i + 1).drop_last() =~= bytes@.take(i as int));
        }
        i = i + 1;
    }
    proof {
        if done {
            lemma_scan_done_stays(
                scan_from(initial_scan(), bytes@.take(i as int)),
                bytes@.skip(i as int),
            );
            lemma_scan_concat(initial_scan(), bytes@.take(i as int), bytes@.skip(i as int));
            assert(bytes@.take(i as int) + bytes@.skip(i as int) =~= bytes@);
        } else {
            assert(bytes@.take(i as int) =~= bytes@);
        }
    }
    out
}

/// The metadata block of the file's bytes, or `None` where the scan recorded
/// fewer than four bytes (no block to take).
pub fn metadata_block(bytes: &[u8]) -> (r: Option<Vec<u8>>)
    ensures
        match r {
            Some(v) => metadata_of(bytes@) == Some(v@),
            None => metadata_of(bytes@) is None,
        },
{
    let rec = scan_metadata(bytes);
    if rec.len() < 4 {
        return None;
    }
    let keep = rec.len() - 4;
    let mut v: Vec<u8> = Vec::new();
    for k in 0..keep
        invariant
            keep == rec.len() - 4,
            keep <= rec.len(),
            v@ == rec@.take(k as int),
    {
        v.push(rec[k]);
        proof {
            assert(rec@.take(k + 1) =~= rec@.take(k as int).push(rec@[k as int]));
        }
    }
    Some(v)
}

/// Once the signature has been read, further bytes change nothing.
pub proof fn lemma_scan_done_stays(st: ScanState, s: Seq<u8>)
    requires
        st.done,
    ensures
        scan_from(st, s) == st,
    decreases s.len(),
{
    if s.len() > 0 {
        lemma_scan_done_stays(st, s.drop_last());
    }
}

/// Scanning two sequences one after the other is scanning their
/// concatenation.
pub proof fn lemma_scan_concat(st: ScanState, a: Seq<u8>, b: Seq<u8>)
    ensures
        scan_from(st, a + b) == scan_from(scan_from(st, a), b),
    decreases b.len(),
{
    if b.len() == 0 {
        assert(a + b =~= a);
    } else {
        lemma_scan_concat(st, a, b.drop_last());
        assert((a + b).drop_last() =~= a + b.drop_last());
    }
}

/// Nine bytes `0x5A`.
pub open spec fn start_marker() -> Seq<u8> {
    Seq::new(9, |i: int| 0x5Au8)
}

/// Whether the signature `50 4B 07 08` occurs in the bytes.
pub open spec fn has_end_marker(s: Seq<u8>) -> bool {
    exists|i: int| 0 <= i && i + 4 <= s.len() && #[trigger] s.subrange(i, i + 4) == end_marker()
}

/// Whether nine bytes `0x5A` occur in a row in the bytes.
pub open spec fn has_start_run(s: Seq<u8>) -> bool {
    exists|i: int| 0 <= i && i + 9 <= s.len() && #[trigger] start_run_at(s, i)
}

/// Whether the nine bytes from `i` on are `0x5A`.
pub open spec fn start_run_at(s: Seq<u8>, i: int) -> bool {
    forall|m: int| i <= m < i + 9 ==> #[trigger] s[m] == 0x5Au8
}

/// Whether the bytes end with the first one, two or three bytes of the
/// signature.
pub open spec fn ends_with_partial_end(s: Seq<u8>) -> bool {
    exists|k: int| 1 <= k < 4 && k <= s.len() && #[trigger] s.skip(s.len() - k) == end_marker().take(k)
}

/// What the scan of any bytes has seen.
pub open spec fn scan_inv(p: Seq<u8>, st: ScanState) -> bool {
    &&& st.done ==> has_end_marker(p)
    &&& st.recording ==> has_start_run(p)
    &&& !st.recording ==> st.out.len() == 0
    &&& !st.done ==> {
        &&& 0 <= st.start < 9
        &&& st.start <= p.len()
        &&& forall|m: int| 0 <= m < st.start ==> #[trigger] p[p.len() - 1 - m] == 0x5Au8
        &&& 0 <= st.end < 4
        &&& st.end <= p.len()
        &&& forall|m: int| 0 <= m < st.end ==> #[trigger] p[p.len() - st.end + m] == end_marker()[m]
    }
}

proof fn lemma_scan_inv(p: Seq<u8>)
    ensures
        scan_inv(p, scan_from(initial_scan(), p)),
    decreases p.len(),
{
    if p.len() > 0 {
        let q = p.drop_last();
        let b = p.last();
        lemma_scan_inv(q);
        let sq = scan_from(initial_scan(), q);
        let sp = scan_from(initial_scan(), p);
        assert(forall|m: int| 0 <= m < q.len() ==> q[m] == p[m]);
        if has_end_marker(q) {
            let i = choose|i: int|
                0 <= i && i + 4 <= q.len() && #[trigger] q.subrange(i, i + 4) == end_marker();
            assert(p.subrange(i, i + 4) =~= q.subrange(i, i + 4));
        }
        if has_start_run(q) {
            let i = choose|i: int| 0 <= i && i + 9 <= q.len() && #[trigger] start_run_at(q, i);
            assert(start_run_at(p, i));
        }
        if !sq.done {
            if sp.done {
                let i = p.len() - 4;
                assert(sq.end == 3);
                assert(q[q.len() - 3 + 0] == end_marker()[0]);
                assert(q[q.len() - 3 + 1] == end_marker()[1]);
                assert(q[q.len() - 3 + 2] == end_marker()[2]);
                assert(p.subrange(i, i + 4) =~= end_marker());
            }
            if sp.recording && !sq.recording {
                let i = p.len() - 9;
                assert forall|m: int| i <= m < i + 9 implies #[trigger] p[m] == 0x5Au8 by {
                    if m < p.len() - 1 {
                        assert(q[q.len() - 1 - (p.len() - 2 - m)] == 0x5Au8);
                    }
                }
                assert(start_run_at(p, i));
            }
            if !sp.done {
                assert forall|m: int| 0 <= m < sp.end implies #[trigger] p[p.len() - sp.end + m]
                    == end_marker()[m] by {
                    if m < sp.end - 1 {
                        assert(q[q.len() - sq.end + m] == end_marker()[m]);
                    }
                }
                assert forall|m: int| 0 <= m < sp.start implies #[trigger] p[p.len() - 1 - m]
                    == 0x5Au8 by {
                    if m > 0 {
                        assert(q[q.len() - 1 - (m - 1)] == 0x5Au8);
                    }
                }
            }
        }
    }
}

/// `k` bytes `0x5A` read while not recording, from a state with no pending
/// run: the run count is `k` and nothing is recorded, until the ninth.
proof fn lemma_scan_start_run(st: ScanState, k: int)
    requires
        !st.done,
        !st.recording,
        st.start == 0,
        0 <= st.end < 4,
        0 <= k <= 9,
    ensures
        k == 0 ==> scan_from(st, start_marker().take(k)) == st,
        1 <= k < 9 ==> scan_from(st, start_marker().take(k)) == (ScanState {
            start: k,
            end: 0,
            recording: false,
            done: false,
            out: st.out,
        }),
        k == 9 ==> scan_from(st, start_marker().take(k)) == (ScanState {
            start: 0,
            end: 0,
            recording: true,
            done: false,
            out: st.out,
        }),
    decreases k,
{
    if k > 0 {
        lemma_scan_start_run(st, k - 1);
        assert(start_marker().take(k).drop_last() =~= start_marker().take(k - 1));
    } else {
        assert(start_marker().take(0) =~= Seq::<u8>::empty());
    }
}

/// Reading bytes while recording, none of which completes the signature.
proof fn lemma_scan_block(st: ScanState, j: Seq<u8>)
    requires
        !st.done,
        st.recording,
        st.end == 0,
        !has_end_marker(j),
    ensures
        !scan_from(st, j).done,
        scan_from(st, j).recording,
        scan_from(st, j).out == st.out + j,
        0 <= scan_from(st, j).end < 4,
        scan_from(st, j).end <= j.len(),
        forall|m: int|
            0 <= m < scan_from(st, j).end ==> #[trigger] j[j.len() - scan_from(st, j).end + m]
                == end_marker()[m],
    decreases j.len(),
{
    if j.len() == 0 {
        assert(st.out + j =~= st.out);
    } else {
        let q = j.drop_last();
        if has_end_marker(q) {
            let i = choose|i: int|
                0 <= i && i + 4 <= q.len() && #[trigger] q.subrange(i, i + 4) == end_marker();
            assert(j.subrange(i, i + 4) =~= q.subrange(i, i + 4));
        }
        lemma_scan_block(st, q);
        let sq = scan_from(st, q);
        let sj = scan_from(st, j);
        assert(st.out + q.push(j.last()) =~= (st.out + q).push(j.last()));
        assert(q.push(j.last()) =~= j);
        if sj.done {
            let i = j.len() - 4;
            assert(q[q.len() - 3 + 0] == end_marker()[0]);
            assert(q[q.len() - 3 + 1] == end_marker()[1]);
            assert(q[q.len() - 3 + 2] == end_marker()[2]);
            assert(j.subrange(i, i + 4) =~= end_marker());
        }
        assert forall|m: int| 0 <= m < sj.end implies #[trigger] j[j.len() - sj.end + m]
            == end_marker()[m] by {
            if m < sj.end - 1 {
                assert(q[q.len() - sq.end + m] == end_marker()[m]);
            }
        }
    }
}

/// Reading the signature while recording, with no part of it pending.
proof fn lemma_scan_end_marker(st: ScanState)
    requires
        !st.done,
        st.recording,
        st.end == 0,
    ensures
        scan_from(st, end_marker()).done,
        scan_from(st, end_marker()).out == st.out + end_marker(),
{
    let e = end_marker();
    assert(e.drop_last().drop_last().drop_last().drop_last() =~= Seq::<u8>::empty());
    assert(e.drop_last().drop_last().drop_last() =~= seq![0x50u8]);
    assert(e.drop_last().drop_last() =~= seq![0x50u8, 0x4Bu8]);
    assert(e.drop_last() =~= seq![0x50u8, 0x4Bu8, 0x07u8]);
    reveal_with_fuel(scan_from, 5);
    assert(st.out.push(0x50u8).push(0x4Bu8).push(0x07u8).push(0x08u8) =~= st.out + e);
}

/// A metadata block written into a file is what the loader reads back:
/// bytes with no signature and no run of nine `0x5A` bytes, not ending in
/// `0x5A`, then nine `0x5A`, then a block that holds no signature and does
/// not end with its first one, two or three bytes, then the signature, then
/// anything.
pub proof fn lemma_metadata_roundtrip(prefix: Seq<u8>, block: Seq<u8>, rest: Seq<u8>)
    requires
        !has_end_marker(prefix),
        !has_start_run(prefix),
        prefix.len() == 0 || prefix.last() != 0x5Au8,
        !has_end_marker(block),
        !ends_with_partial_end(block),
    ensures
        metadata_of(prefix + start_marker() + block + end_marker() + rest) == Some(block),
{
    let s0 = initial_scan();
    lemma_scan_inv(prefix);
    let s1 = scan_from(s0, prefix);
    if prefix.len() > 0 {
        let sq = scan_from(s0, prefix.drop_last());
        lemma_scan_inv(prefix.drop_last());
        if sq.done {
            lemma_scan_inv(prefix);
        }
    }
    assert(s1.start == 0);
    lemma_scan_start_run(s1, 9);
    assert(start_marker().take(9) =~= start_marker());
    let s2 = scan_from(s1, start_marker());
    lemma_scan_block(s2, block);
    let s3 = scan_from(s2, block);
    if s3.end > 0 {
        let k = s3.end;
        assert forall|m: int| 0 <= m < k implies block.skip(block.len() - k)[m] == end_marker().take(
            k,
        )[m] by {
            assert(block[block.len() - scan_from(s2, block).end + m] == end_marker()[m]);
        }
        assert(block.skip(block.len() - k) =~= end_marker().take(k));
        assert(ends_with_partial_end(block));
    }
    lemma_scan_end_marker(s3);
    let s4 = scan_from(s3, end_marker());
    lemma_scan_done_stays(s4, rest);
    lemma_scan_concat(s0, prefix, start_marker());
    lemma_scan_concat(s0, prefix + start_marker(), block);
    lemma_scan_concat(s0, prefix + start_marker() + block, end_marker());
    lemma_scan_concat(s0, prefix + start_marker() + block + end_marker(), rest);
    let r = recorded(prefix + start_marker() + block + end_marker() + rest);
    assert(r =~= block + end_marker());
    assert(r.take(r.len() - 4) =~= block);
}

} // verus!
