//! The example fuzz target that parses fuzzer bytes as a tar archive and
//! reads every entry, marking coverage signals.
//!
//! Coverage points: 0 on entry, 1 when the input is cut to `MAX_INPUT`
//! bytes, 2 once the archive is opened, 3 when its entries cannot be listed,
//! then for each entry that could be read from the archive 4 and 5, and
//! either 6 when its body cannot be read or 7 and 8 around the body's
//! folding; 9 at the end.

use std::io::{Cursor, Read};
use vstd::prelude::*;
use crate::signals::signals_set;

verus! {

/// Upper bound on the bytes fed to the archive parser.
pub const MAX_INPUT: usize = 256 * 1024;

/// What reading one item of an archive's entry list gave.
#[derive(Debug)]
pub enum EntryRead {
    /// The list yielded an error in place of an entry.
    Failed,
    /// The entry was found but its body could not be read.
    Unreadable,
    /// The entry's body.
    Body(Vec<u8>),
}

/// `EntryRead` with the body as a sequence.
pub enum EntryReadView {
    Failed,
    Unreadable,
    Body(Seq<u8>),
}

impl View for EntryRead {
    type V = EntryReadView;

    open spec fn view(&self) -> EntryReadView {
        match self {
            EntryRead::Failed => EntryReadView::Failed,
            EntryRead::Unreadable => EntryReadView::Unreadable,
            EntryRead::Body(b) => EntryReadView::Body(b@),
        }
    }
}

/// The views of a list of entry reads.
pub open spec fn entry_reads_view(v: Seq<EntryRead>) -> Seq<EntryReadView> {
    v.map_values(|e: EntryRead| e@)
}

/// What the `tar` crate reads from the archive held in `data`: the list of
/// its entries, or `None` where the list cannot be had.
pub uninterp spec fn tar_entries_of(data: Seq<u8>) -> Option<Seq<EntryReadView>>;

/// Reads `data` as a tar archive with the `tar` crate: `Archive::new` over a
/// `Cursor` of the bytes, `Archive::entries`, then for each item of the
/// entry list `Entry::path` (whose result is not used) and
/// `Read::read_to_end` into a fresh buffer. The result is a function of the
/// bytes alone, named `tar_entries_of`; the one further fact claimed is that
/// `entries` succeeds, which the crate's source shows for an archive that has
/// not been read from. The crate's archive, entry list and entry types carry a
/// `Read` bound that Verus does not take in a type declaration, so this one
/// item reads the list into plain values.
#[verifier::external_body]
fn read_tar_entries(data: &[u8]) -> (r: Option<Vec<EntryRead>>)
    ensures
        r is Some,
        r matches Some(v) ==> tar_entries_of(data@) == Some(entry_reads_view(v@)),
{
    let mut archive = tar::Archive::new(Cursor::new(data));
    let mut reads = Vec::new();
    for entry in archive.entries().ok()? {
        reads.push(match entry {
            Err(_) => EntryRead::Failed,
            Ok(mut e) => {
                let _ = e.path();
                let mut body = Vec::new();
                if e.read_to_end(&mut body).is_ok() { EntryRead::Body(body) } else { EntryRead::Unreadable }
            },
        });
    }
    Some(reads)
}

/// The FNV-1a offset basis, where a fold starts.
pub const FOLD_OFFSET: u64 = 0xcbf29ce484222325;

/// The FNV-1a prime.
pub const FOLD_PRIME: u64 = 0x100000001b3;

/// The FNV-1a fold of `s`: start at the offset basis, and for each byte xor
/// it in and multiply by the prime, modulo 2^64.
pub open spec fn fold_spec(s: Seq<u8>) -> u64
    decreases s.len(),
{
    if s.len() == 0 {
        FOLD_OFFSET
    } else {
        (((fold_spec(s.drop_last()) ^ (s.last() as u64)) as nat * FOLD_PRIME as nat)
            % 0x1_0000_0000_0000_0000) as u64
    }
}

/// Fold every byte of `body` into an FNV-1a hash.
pub fn fold_body(body: &[u8]) -> (acc: u64)
    ensures
        acc == fold_spec(body@),
{
    let mut acc: u64 = FOLD_OFFSET;
    let n = body.len();
    let mut i: usize = 0;
    while i < n
        invariant
            n == body@.len(),
            i <= n,
            acc == fold_spec(body@.take(i as int)),
        decreases n - i,
    {
        assert(body@.take(i + 1).drop_last() =~= body@.take(i as int));
        acc = acc ^ (body[i] as u64);
        acc = acc.wrapping_mul(FOLD_PRIME);
        i = i + 1;
    }
    assert(body@.take(n as int) =~= body@);
    acc
}

/// The bytes the archive parser sees: `data` cut to `MAX_INPUT` bytes.
pub open spec fn capped(data: Seq<u8>) -> Seq<u8> {
    if data.len() > MAX_INPUT {
        data.take(MAX_INPUT as int)
    } else {
        data
    }
}

/// Whether reading an entry reaches coverage point `idx`.
pub open spec fn entry_signal(e: EntryReadView, idx: int) -> bool {
    match e {
        EntryReadView::Failed => false,
        EntryReadView::Unreadable => idx == 4 || idx == 5 || idx == 6,
        EntryReadView::Body(_) => idx == 4 || idx == 5 || idx == 7 || idx == 8,
    }
}

/// Whether reading one of the entries reaches coverage point `idx`.
pub open spec fn any_entry_signal(es: Seq<EntryReadView>, idx: int) -> bool
    decreases es.len(),
{
    if es.len() == 0 {
        false
    } else {
        any_entry_signal(es.drop_last(), idx) || entry_signal(es.last(), idx)
    }
}

/// No entry reaches coverage point 3, which belongs to listing the entries.
proof fn lemma_no_entry_signal_3(es: Seq<EntryReadView>)
    ensures
        !any_entry_signal(es, 3),
    decreases es.len(),
{
    if es.len() > 0 {
        lemma_no_entry_signal_3(es.drop_last());
    }
}

/// Whether a run on `data` reaches coverage point `idx`.
pub open spec fn tar_signal_hit(data: Seq<u8>, idx: int) -> bool {
    let entries = tar_entries_of(capped(data));
    ||| idx == 0
    ||| idx == 1 && data.len() > MAX_INPUT
    ||| idx == 2
    ||| idx == 3 && entries is None
    ||| entries is Some && idx == 9
    ||| entries matches Some(es) && any_entry_signal(es, idx)
}

/// The parser sees no more than `MAX_INPUT` bytes: two inputs over the cap
/// that agree on their first `MAX_INPUT` bytes reach the same coverage
/// points.
pub proof fn law_only_the_first_bytes_matter(d1: Seq<u8>, d2: Seq<u8>)
    requires
        d1.len() > MAX_INPUT,
        d2.len() > MAX_INPUT,
        d1.take(MAX_INPUT as int) == d2.take(MAX_INPUT as int),
    ensures
        forall|i: int| tar_signal_hit(d1, i) == tar_signal_hit(d2, i),
{
}

/// Some entry's body was read.
pub open spec fn some_body_read(r: Seq<EntryRead>) -> bool {
    exists|k: int| 0 <= k < r.len() && r[k] is Body
}

/// Some entry's body could not be read.
pub open spec fn some_body_unreadable(r: Seq<EntryRead>) -> bool {
    exists|k: int| 0 <= k < r.len() && r[k] is Unreadable
}

/// Some entry was found in the list.
pub open spec fn some_entry_found(r: Seq<EntryRead>) -> bool {
    exists|k: int| 0 <= k < r.len() && !(r[k] is Failed)
}

/// The points that entries reach: 4 and 5 for every entry found, 6 for one
/// whose body cannot be read, 7 and 8 for one whose body was read, whatever
/// its length; no other point.
pub proof fn law_entry_points(r: Seq<EntryRead>, idx: int)
    ensures
        any_entry_signal(entry_reads_view(r), idx) == (((idx == 4 || idx == 5) && some_entry_found(
            r,
        )) || (idx == 6 && some_body_unreadable(r)) || ((idx == 7 || idx == 8) && some_body_read(
            r,
        ))),
    decreases r.len(),
{
    if r.len() == 0 {
    } else {
        let p = r.drop_last();
        law_entry_points(p, idx);
        assert(entry_reads_view(r).drop_last() =~= entry_reads_view(p));
        assert(entry_reads_view(r).last() == r.last()@);
        let x = r.last();
        assert(some_body_read(r) == (some_body_read(p) || x is Body)) by {
            if some_body_read(r) {
                let k = choose|k: int| 0 <= k < r.len() && r[k] is Body;
                if k < p.len() {
                    assert(p[k] == r[k]);
                }
            }
            if some_body_read(p) {
                let k = choose|k: int| 0 <= k < p.len() && p[k] is Body;
                assert(r[k] == p[k]);
            }
            if x is Body {
                assert(r[r.len() - 1] is Body);
            }
        }
        assert(some_body_unreadable(r) == (some_body_unreadable(p) || x is Unreadable)) by {
            if some_body_unreadable(r) {
                let k = choose|k: int| 0 <= k < r.len() && r[k] is Unreadable;
                if k < p.len() {
                    assert(p[k] == r[k]);
                }
            }
            if some_body_unreadable(p) {
                let k = choose|k: int| 0 <= k < p.len() && p[k] is Unreadable;
                assert(r[k] == p[k]);
            }
            if x is Unreadable {
                assert(r[r.len() - 1] is Unreadable);
            }
        }
        assert(some_entry_found(r) == (some_entry_found(p) || !(x is Failed))) by {
            if some_entry_found(r) {
                let k = choose|k: int| 0 <= k < r.len() && !(r[k] is Failed);
                if k < p.len() {
                    assert(p[k] == r[k]);
                }
            }
            if some_entry_found(p) {
                let k = choose|k: int| 0 <= k < p.len() && !(p[k] is Failed);
                assert(r[k] == p[k]);
            }
            if !(x is Failed) {
                assert(!(r[r.len() - 1] is Failed));
            }
        }
    }
}

/// Read and fold each entry of an archive's entry list, setting in
/// `signals` every coverage point the entries reach (where the map has it).
pub fn mark_entries(reads: &[EntryRead], signals: &mut Vec<u8>)
    ensures
        final(signals)@.len() == old(signals)@.len(),
        forall|i: int|
            0 <= i < old(signals)@.len() ==> #[trigger] final(signals)@[i] == if any_entry_signal(
                entry_reads_view(reads@),
                i,
            ) {
                1u8
            } else {
                old(signals)@[i]
            },
        // Every entry whose body was read, the empty body included, reaches
        // points 7 and 8; one whose body cannot be read reaches 6; every
        // entry found reaches 4 and 5; nothing else is set.
        forall|i: int|
            0 <= i < old(signals)@.len() ==> #[trigger] final(signals)@[i] == if ((i == 7 || i
                == 8) && some_body_read(reads@)) || (i == 6 && some_body_unreadable(reads@)) || ((i
                == 4 || i == 5) && some_entry_found(reads@)) {
                1u8
            } else {
                old(signals)@[i]
            },
{
    let ghost before = signals@;
    let ghost es = entry_reads_view(reads@);
    proof {
        assert forall|i: int| #[trigger] any_entry_signal(es, i) == (((i == 4 || i == 5)
            && some_entry_found(reads@)) || (i == 6 && some_body_unreadable(reads@)) || ((i == 7
            || i == 8) && some_body_read(reads@))) by {
            law_entry_points(reads@, i);
        }
    }
    let n = reads.len();
    let mut i: usize = 0;
    while i < n
        invariant
            n == reads@.len(),
            es == entry_reads_view(reads@),
            i <= n,
            signals@.len() == before.len(),
            forall|j: int|
                0 <= j < signals@.len() ==> #[trigger] signals@[j] == if any_entry_signal(
                    es.take(i as int),
                    j,
                ) {
                    1u8
                } else {
                    before[j]
                },
        decreases n - i,
    {
        match &reads[i] {
            EntryRead::Failed => {},
            EntryRead::Unreadable => {
                signals_set(signals, 4);
                signals_set(signals, 5);
                signals_set(signals, 6);
            },
            EntryRead::Body(body) => {
                signals_set(signals, 4);
                signals_set(signals, 5);
                signals_set(signals, 7);
                let _acc = fold_body(body.as_slice());
                signals_set(signals, 8);
            },
        }
        proof {
            assert(es.take(i + 1).drop_last() =~= es.take(i as int));
            assert(es.take(i + 1).last() == reads@[i as int]@);
        }
        i = i + 1;
    }
    proof {
        assert(es.take(n as int) =~= es);
    }
}

/// Run the target on the fuzzer input `data`: parse its first `MAX_INPUT`
/// bytes as a tar archive and read and fold every entry's body, setting in
/// `signals` each coverage point the run reaches (where the map has it).
pub fn run_from_input(data: &[u8], signals: &mut Vec<u8>)
    ensures
        final(signals)@.len() == old(signals)@.len(),
        tar_entries_of(capped(data@)) is Some,
        0 < old(signals)@.len() ==> final(signals)@[0] == 1,
        3 < old(signals)@.len() ==> final(signals)@[3] == old(signals)@[3],
        forall|i: int|
            0 <= i < old(signals)@.len() ==> #[trigger] final(signals)@[i] == if tar_signal_hit(
                data@,
                i,
            ) {
                1u8
            } else {
                old(signals)@[i]
            },
{
    let ghost before = signals@;
    signals_set(signals, 0);
    let window: &[u8] = if data.len() > MAX_INPUT {
        signals_set(signals, 1);
        &data[0..MAX_INPUT]
    } else {
        data
    };
    assert(window@ == capped(data@)) by {
        if data@.len() > MAX_INPUT {
            assert(data@.subrange(0, MAX_INPUT as int) =~= data@.take(MAX_INPUT as int));
        }
    }
    let read = read_tar_entries(window);
    signals_set(signals, 2);
    let reads = match read {
        None => {
            signals_set(signals, 3);
            return ;
        },
        Some(reads) => reads,
    };
    let ghost es = entry_reads_view(reads@);
    let ghost mid = signals@;
    mark_entries(reads.as_slice(), signals);
    proof {
        assert forall|j: int| 0 <= j < signals@.len() implies #[trigger] signals@[j] == if j == 0
            || j == 2 || (j == 1 && data@.len() > MAX_INPUT) || any_entry_signal(es, j) {
            1u8
        } else {
            before[j]
        } by {
            assert(mid[j] == if j == 0 || j == 2 || (j == 1 && data@.len() > MAX_INPUT) {
                1u8
            } else {
                before[j]
            });
        }
    }
    signals_set(signals, 9);
    proof {
        assert(tar_entries_of(capped(data@)) == Some(es));
        lemma_no_entry_signal_3(es);
        assert(!tar_signal_hit(data@, 3));
        if 3 < before.len() {
            assert(signals@[3] == before[3]);
        }
    }
}

} // verus!
