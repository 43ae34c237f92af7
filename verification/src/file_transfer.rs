//! The chunked file-transfer protocol: an encoder that splits a file into
//! ordered reliable-channel commands, and a receiver that reconstructs the
//! file by writing each chunk at its reported progress offset.
//!
//! The receiver opens a transfer once per file name, pre-allocates the full
//! declared length, tracks cumulative bytes per name, and finalizes when
//! cumulative equals the declared total. A chunk with index 0 for a name
//! already mid-transfer is a restart error; once a transfer completes it
//! leaves the pending set, so a later chunk 0 for the same name starts a
//! fresh transfer rather than corrupting the old one.
use crate::commands::ServerCommand;
use vstd::prelude::*;

verus! {

/// How many bytes one file-part command carries at most.
pub const CHUNK_SIZE: usize = 65536;

/// The bytes of chunk `i` of a file.
pub open spec fn chunk_at(data: Seq<u8>, i: int) -> Seq<u8> {
    data.subrange(
        i * 65536,
        if (i + 1) * 65536 <= data.len() {
            (i + 1) * 65536
        } else {
            data.len() as int
        },
    )
}

/// The command is chunk `i` of the named file: its bytes are the file's
/// `i`-th slice, its declared total is the file length, and its progress
/// offset is where the slice starts.
pub open spec fn filepart_matches(c: ServerCommand, name: Seq<u8>, data: Seq<u8>, i: int) -> bool {
    match c {
        ServerCommand::FilePart(n, d, ci, total, offset) => {
            &&& n@ == name
            &&& d@ == chunk_at(data, i)
            &&& ci == i
            &&& total == data.len()
            &&& offset == i * 65536
        },
        _ => false,
    }
}

/// The file content with `d` written at offset `off`.
pub open spec fn write_at(c: Seq<u8>, off: int, d: Seq<u8>) -> Seq<u8> {
    Seq::new(c.len(), |i: int| if off <= i < off + d.len() { d[i - off] } else { c[i] })
}

/// The content of a file of which the first `k` chunks have been written over
/// a zeroed allocation.
pub open spec fn written(data: Seq<u8>, k: int) -> Seq<u8> {
    Seq::new(data.len(), |i: int| if i < k * 65536 { data[i] } else { 0u8 })
}

/// Law (file-transfer round trip, step): feeding chunk `k` of a file to a
/// receiver that already holds the first `k` chunks yields the first `k + 1`
/// chunks — the encoder's slices land exactly where the receiver writes them.
pub proof fn lemma_round_trip_step(data: Seq<u8>, k: int)
    requires
        0 <= k,
        k * 65536 < data.len(),
    ensures
        write_at(written(data, k), k * 65536, chunk_at(data, k)) == written(data, k + 1),
{
    assert(write_at(written(data, k), k * 65536, chunk_at(data, k)) =~= written(data, k + 1));
}

/// Law (file-transfer round trip, completion): once every chunk of a file has
/// been written, the reconstructed content is byte-identical to the file.
pub proof fn lemma_round_trip_complete(data: Seq<u8>, k: int)
    requires
        0 <= k,
        data.len() <= k * 65536,
    ensures
        written(data, k) == data,
{
    assert(written(data, k) =~= data);
}

/// Splits a file into ordered file-part commands. Chunk `i` carries the
/// file's bytes from `i * CHUNK_SIZE` on, at most `CHUNK_SIZE` of them; every
/// chunk declares the file's total length and its own progress offset, and an
/// empty file yields no chunks.
pub fn encode_chunks(name: &Vec<u8>, data: &Vec<u8>) -> (r: Vec<ServerCommand>)
    requires
        name@.len() <= 0xFFFF_FFFF,
        data@.len() <= 0xFFFF_FFFF,
    ensures
        forall|i: int|
            0 <= i < r@.len() ==> filepart_matches(#[trigger] r@[i], name@, data@, i),
        r@.len() == 0 <==> data@.len() == 0,
        r@.len() > 0 ==> (r@.len() - 1) * 65536 < data@.len() <= r@.len() * 65536,
{
    let mut r: Vec<ServerCommand> = Vec::new();
    let n = data.len();
    let mut offset: usize = 0;
    let mut k: usize = 0;
    while offset < n
        invariant
            n == data@.len(),
            n <= 0xFFFF_FFFF,
            name@.len() <= 0xFFFF_FFFF,
            k <= n,
            offset <= n,
            offset < n ==> offset == k * 65536,
            offset == n ==> ((k == 0 ==> n == 0) && (k > 0 ==> (k - 1) * 65536 < n <= k * 65536)),
            offset == n || offset == k * 65536,
            r@.len() == k,
            forall|i: int|
                0 <= i < r@.len() ==> filepart_matches(#[trigger] r@[i], name@, data@, i),
        decreases n - offset,
    {
        let end = if n - offset >= CHUNK_SIZE {
            offset + CHUNK_SIZE
        } else {
            n
        };
        let piece = vstd::slice::slice_to_vec(
            vstd::slice::slice_subrange(data.as_slice(), offset, end),
        );
        let ghost r0 = r@;
        let part = ServerCommand::FilePart(
            crate::util::clone_bytes(name),
            piece,
            k as u32,
            n as u32,
            offset as u32,
        );
        proof {
            assert(filepart_matches(part, name@, data@, k as int));
        }
        r.push(part);
        offset = end;
        k = k + 1;
        proof {
            assert forall|i: int|
                0 <= i < r@.len() implies filepart_matches(#[trigger] r@[i], name@, data@, i) by {
                if i < r0.len() {
                    assert(r@[i] == r0[i]);
                }
            }
        }
    }
    r
}

/// Why the receiver refused a chunk. Refusing never changes its state.
#[derive(Clone, Copy, Debug, PartialEq, Eq, Structural)]
pub enum TransferError {
    /// Chunk 0 arrived for a file name already mid-transfer.
    Restarted,
    /// A chunk with a non-zero index arrived for a name with no open transfer.
    UnknownTransfer,
    /// The chunk's declared total disagrees with the open transfer, or its
    /// bytes would run past the declared total.
    Oversized,
}

/// One open, not yet complete transfer: the file name, the declared total,
/// how many bytes have arrived, and the pre-allocated content.
pub struct PendingTransfer {
    pub name: Vec<u8>,
    pub total: u32,
    pub received: u32,
    pub content: Vec<u8>,
}

/// A pending transfer is internally consistent.
pub open spec fn pt_wf(t: PendingTransfer) -> bool {
    &&& t.content@.len() == t.total
    &&& t.received <= t.total
}

/// Some open transfer carries the name.
pub open spec fn has_name(s: Seq<PendingTransfer>, name: Seq<u8>) -> bool {
    exists|i: int| 0 <= i < s.len() && s[i].name@ == name
}

/// The position of the open transfer with the name.
pub open spec fn name_idx(s: Seq<PendingTransfer>, name: Seq<u8>) -> int {
    choose|i: int| 0 <= i < s.len() && s[i].name@ == name
}

/// Receiver well-formedness: one open transfer per name, each consistent.
pub open spec fn recv_wf(s: Seq<PendingTransfer>) -> bool {
    &&& forall|i: int, j: int| 0 <= i < j < s.len() ==> s[i].name@ != s[j].name@
    &&& forall|i: int| 0 <= i < s.len() ==> pt_wf(#[trigger] s[i])
}

/// The reassembly side of the file-transfer protocol: the set of transfers
/// currently mid-flight, keyed by file name.
pub struct FileTransferReceiver {
    pending: Vec<PendingTransfer>,
}

impl View for FileTransferReceiver {
    type V = Seq<PendingTransfer>;

    closed spec fn view(&self) -> Seq<PendingTransfer> {
        self.pending@
    }
}

/// Under well-formedness, a transfer at a matching index is the unique one.
proof fn lemma_name_at(s: Seq<PendingTransfer>, name: Seq<u8>, i: int)
    requires
        recv_wf(s),
        0 <= i < s.len(),
        s[i].name@ == name,
    ensures
        has_name(s, name),
        name_idx(s, name) == i,
{
    assert(has_name(s, name));
    let j = name_idx(s, name);
    assert(0 <= j < s.len() && s[j].name@ == name);
    if i != j {
        assert(false);
    }
}

impl FileTransferReceiver {
    /// A receiver with no transfer mid-flight.
    pub fn new() -> (r: Self)
        ensures
            r@ === Seq::<PendingTransfer>::empty(),
            recv_wf(r@),
    {
        let r = FileTransferReceiver { pending: Vec::new() };
        proof {
            assert(r@ =~= Seq::<PendingTransfer>::empty());
        }
        r
    }

    /// How many transfers are mid-flight.
    pub fn pending_count(&self) -> (r: usize)
        ensures
            r == self@.len(),
    {
        self.pending.len()
    }

    /// Session teardown: every incomplete transfer is deleted rather than
    /// left as a partial artifact.
    pub fn abort_all(&mut self)
        ensures
            final(self)@ === Seq::<PendingTransfer>::empty(),
            recv_wf(final(self)@),
    {
        self.pending.clear();
        proof {
            assert(self@ =~= Seq::<PendingTransfer>::empty());
        }
    }

    /// Copies chunk bytes into the transfer's content at the progress offset.
    fn write_chunk(content: &mut Vec<u8>, offset: usize, data: &Vec<u8>)
        requires
            offset + data@.len() <= old(content)@.len(),
        ensures
            final(content)@ == write_at(old(content)@, offset as int, data@),
    {
        let n = data.len();
        let cl = content.len();
        let mut i: usize = 0;
        while i < n
            invariant
                0 <= i <= n,
                n == data@.len(),
                cl == content@.len(),
                offset + n <= cl,
                content@.len() == old(content)@.len(),
                forall|j: int|
                    0 <= j < content@.len() ==> content@[j] == (if offset <= j < offset + i {
                        data@[j - offset]
                    } else {
                        old(content)@[j]
                    }),
            decreases n - i,
        {
            let b = data[i];
            content[offset + i] = b;
            i = i + 1;
        }
        proof {
            assert(content@ =~= write_at(old(content)@, offset as int, data@));
        }
    }

    /// Accepts one file-part. Chunk 0 opens a transfer for its name —
    /// restarting a name mid-flight is an error — and every chunk writes its
    /// bytes at its reported progress offset and advances the cumulative
    /// count. When cumulative equals the declared total the transfer
    /// finalizes: it leaves the pending set and the reconstructed content is
    /// handed back.
    pub fn accept(
        &mut self,
        name: &Vec<u8>,
        data: &Vec<u8>,
        chunk_index: u32,
        total: u32,
        offset: u32,
    ) -> (r: Result<Option<Vec<u8>>, TransferError>)
        requires
            recv_wf(old(self)@),
        ensures
            recv_wf(final(self)@),
            match r {
                Err(e) => final(self)@ == old(self)@ && ((e == TransferError::Restarted)
                    <==> (chunk_index == 0 && has_name(old(self)@, name@))) && ((e
                    == TransferError::UnknownTransfer) <==> (chunk_index != 0 && !has_name(
                    old(self)@,
                    name@,
                ))) && ((e == TransferError::Oversized) <==> ((chunk_index == 0 && !has_name(
                    old(self)@,
                    name@,
                ) && offset + data@.len() > total) || (chunk_index != 0 && has_name(
                    old(self)@,
                    name@,
                ) && ({
                    let t = old(self)@[name_idx(old(self)@, name@)];
                    t.total != total || offset + data@.len() > total || data@.len() + t.received
                        > total
                })))),
                Ok(out) => ({
                    let content0 = if chunk_index == 0 {
                        Seq::<u8>::new(total as nat, |i: int| 0u8)
                    } else {
                        old(self)@[name_idx(old(self)@, name@)].content@
                    };
                    let received0: int = if chunk_index == 0 {
                        0
                    } else {
                        old(self)@[name_idx(old(self)@, name@)].received as int
                    };
                    let new_content = write_at(content0, offset as int, data@);
                    let new_received = received0 + data@.len();
                    &&& (chunk_index == 0 ==> !has_name(old(self)@, name@))
                    &&& (chunk_index != 0 ==> has_name(old(self)@, name@) && old(self)@[name_idx(
                        old(self)@,
                        name@,
                    )].total == total)
                    &&& offset + data@.len() <= total
                    &&& new_received <= total
                    &&& match out {
                        Some(v) => {
                            // complete: the content is handed back and the
                            // name leaves the pending set
                            &&& new_received == total
                            &&& v@ == new_content
                            &&& !has_name(final(self)@, name@)
                            &&& forall|nm: Seq<u8>|
                                nm != name@ ==> (#[trigger] has_name(final(self)@, nm) <==> has_name(
                                    old(self)@,
                                    nm,
                                ))
                        },
                        None => {
                            // mid-flight: the transfer records the chunk
                            &&& new_received < total
                            &&& has_name(final(self)@, name@)
                            &&& ({
                                let t = final(self)@[name_idx(final(self)@, name@)];
                                t.total == total && t.received == new_received && t.content@
                                    == new_content
                            })
                            &&& forall|nm: Seq<u8>|
                                nm != name@ ==> (#[trigger] has_name(final(self)@, nm) <==> has_name(
                                    old(self)@,
                                    nm,
                                ))
                        },
                    }
                    &&& forall|nm: Seq<u8>|
                        nm != name@ && has_name(old(self)@, nm)
                            ==> final(self)@[#[trigger] name_idx(final(self)@, nm)] == old(
                            self,
                        )@[name_idx(old(self)@, nm)]
                }),
            },
    {
        let ghost s0 = self@;
        // locate an open transfer with this name
        let n = self.pending.len();
        let mut i: usize = 0;
        let mut found = false;
        while i < n && !found
            invariant
                0 <= i <= n,
                n == self@.len(),
                self@ == s0,
                recv_wf(s0),
                !found ==> forall|k: int| 0 <= k < i ==> s0[k].name@ != name@,
                found ==> i < n && s0[i as int].name@ == name@,
            decreases n - i + (if found { 0int } else { 1int }),
        {
            if crate::util::bytes_eq(&self.pending[i].name, name) {
                found = true;
            } else {
                i = i + 1;
            }
        }
        proof {
            if found {
                lemma_name_at(s0, name@, i as int);
            } else {
                assert(!has_name(s0, name@)) by {
                    if has_name(s0, name@) {
                        let k = name_idx(s0, name@);
                        assert(0 <= k < s0.len() && s0[k].name@ == name@);
                    }
                }
            }
        }
        if chunk_index == 0 {
            if found {
                return Err(TransferError::Restarted);
            }
            // open a fresh transfer: pre-allocate the declared length
            if data.len() > (total as usize) || (offset as usize) > (total as usize) - data.len() {
                return Err(TransferError::Oversized);
            }
            let mut content: Vec<u8> = vec![0u8; total as usize];
            proof {
                assert(content@ =~= Seq::<u8>::new(total as nat, |j: int| 0u8));
            }
            Self::write_chunk(&mut content, offset as usize, data);
            let received = data.len() as u32;
            if received == total {
                proof {
                    assert forall|nm: Seq<u8>| nm != name@ implies (#[trigger] has_name(
                        self@,
                        nm,
                    ) <==> has_name(s0, nm)) by {}
                }
                return Ok(Some(content));
            }
            let t = PendingTransfer {
                name: crate::util::clone_bytes(name),
                total,
                received,
                content,
            };
            let ghost pre = self@;
            self.pending.push(t);
            proof {
                assert(self@ == pre.push(t));
                assert(recv_wf(self@)) by {
                    assert forall|p: int, q: int| 0 <= p < q < self@.len() implies self@[p].name@
                        != self@[q].name@ by {
                        if q == self@.len() - 1 {
                            assert(self@[p] == s0[p]);
                            if s0[p].name@ == name@ {
                                assert(has_name(s0, name@));
                            }
                        } else {
                            assert(self@[p] == s0[p] && self@[q] == s0[q]);
                        }
                    }
                    assert forall|p: int| 0 <= p < self@.len() implies pt_wf(
                        #[trigger] self@[p],
                    ) by {
                        if p < self@.len() - 1 {
                            assert(self@[p] == s0[p]);
                        }
                    }
                }
                lemma_name_at(self@, name@, self@.len() - 1);
                assert forall|nm: Seq<u8>| nm != name@ implies (#[trigger] has_name(self@, nm)
                    <==> has_name(s0, nm)) by {
                    if has_name(s0, nm) {
                        let k = name_idx(s0, nm);
                        assert(0 <= k < s0.len() && s0[k].name@ == nm);
                        assert(self@[k].name@ == nm);
                    }
                    if has_name(self@, nm) {
                        let k = choose|k: int| 0 <= k < self@.len() && self@[k].name@ == nm;
                        assert(0 <= k < self@.len() && self@[k].name@ == nm);
                        assert(k != self@.len() - 1);
                        assert(s0[k].name@ == nm);
                    }
                }
                assert forall|nm: Seq<u8>| nm != name@ && has_name(s0, nm) implies self@[
                #[trigger] name_idx(self@, nm)] == s0[name_idx(s0, nm)] by {
                    let k = name_idx(s0, nm);
                    assert(0 <= k < s0.len() && s0[k].name@ == nm);
                    lemma_name_at(s0, nm, k);
                    assert(self@[k] == s0[k]);
                    lemma_name_at(self@, nm, k);
                }
            }
            return Ok(None);
        }
        // a continuation chunk needs an open transfer
        if !found {
            return Err(TransferError::UnknownTransfer);
        }
        proof {
            assert(pt_wf(s0[i as int]));
        }
        if self.pending[i].total != total {
            return Err(TransferError::Oversized);
        }
        if data.len() > (total as usize) || (offset as usize) > (total as usize) - data.len() {
            return Err(TransferError::Oversized);
        }
        let prior = self.pending[i].received;
        if data.len() > (total - prior) as usize {
            return Err(TransferError::Oversized);
        }
        let mut t = self.pending.remove(i);
        let ghost mid = self@;
        Self::write_chunk(&mut t.content, offset as usize, data);
        let new_received = prior + data.len() as u32;
        t.received = new_received;
        proof {
            // removing the unique carrier of the name
            assert forall|p: int| 0 <= p < mid.len() implies mid[p] == s0[if p < i {
                p
            } else {
                p + 1
            }] by {}
            assert(recv_wf(mid)) by {
                assert forall|p: int, q: int| 0 <= p < q < mid.len() implies mid[p].name@
                    != mid[q].name@ by {
                    let p0 = if p < i { p } else { p + 1 };
                    let q0 = if q < i { q } else { q + 1 };
                    assert(mid[p] == s0[p0] && mid[q] == s0[q0]);
                }
                assert forall|p: int| 0 <= p < mid.len() implies pt_wf(#[trigger] mid[p]) by {
                    let p0 = if p < i { p } else { p + 1 };
                    assert(mid[p] == s0[p0]);
                    assert(pt_wf(s0[p0]));
                }
            }
            assert(!has_name(mid, name@)) by {
                if has_name(mid, name@) {
                    let k = choose|k: int| 0 <= k < mid.len() && mid[k].name@ == name@;
                    assert(0 <= k < mid.len() && mid[k].name@ == name@);
                    let k0 = if k < i { k } else { k + 1 };
                    assert(s0[k0].name@ == name@ && k0 != i);
                    assert(false);
                }
            }
            assert forall|nm: Seq<u8>| nm != name@ implies (#[trigger] has_name(mid, nm)
                <==> has_name(s0, nm)) by {
                if has_name(s0, nm) {
                    let k = name_idx(s0, nm);
                    assert(0 <= k < s0.len() && s0[k].name@ == nm);
                    assert(k != i);
                    let k2 = if k < i { k } else { k - 1 };
                    assert(mid[k2].name@ == nm);
                }
                if has_name(mid, nm) {
                    let k = choose|k: int| 0 <= k < mid.len() && mid[k].name@ == nm;
                    assert(0 <= k < mid.len() && mid[k].name@ == nm);
                    let k0 = if k < i { k } else { k + 1 };
                    assert(s0[k0].name@ == nm);
                }
            }
            assert forall|nm: Seq<u8>| nm != name@ && has_name(s0, nm) implies mid[
            #[trigger] name_idx(mid, nm)] == s0[name_idx(s0, nm)] by {
                let k = name_idx(s0, nm);
                assert(0 <= k < s0.len() && s0[k].name@ == nm);
                lemma_name_at(s0, nm, k);
                assert(k != i);
                let k2 = if k < i { k } else { k - 1 };
                assert(mid[k2] == s0[k]);
                lemma_name_at(mid, nm, k2);
            }
        }
        if new_received == total {
            return Ok(Some(t.content));
        }
        let ghost pre = self@;
        self.pending.push(t);
        proof {
            assert(self@ == mid.push(t));
            assert(recv_wf(self@)) by {
                assert forall|p: int, q: int| 0 <= p < q < self@.len() implies self@[p].name@
                    != self@[q].name@ by {
                    if q == self@.len() - 1 {
                        assert(self@[p] == mid[p]);
                        if mid[p].name@ == name@ {
                            assert(has_name(mid, name@));
                        }
                    } else {
                        assert(self@[p] == mid[p] && self@[q] == mid[q]);
                    }
                }
                assert forall|p: int| 0 <= p < self@.len() implies pt_wf(#[trigger] self@[p]) by {
                    if p < self@.len() - 1 {
                        assert(self@[p] == mid[p]);
                        assert(pt_wf(mid[p]));
                    }
                }
            }
            lemma_name_at(self@, name@, self@.len() - 1);
            assert forall|nm: Seq<u8>| nm != name@ implies (#[trigger] has_name(self@, nm)
                <==> has_name(mid, nm)) by {
                if has_name(mid, nm) {
                    let k = name_idx(mid, nm);
                    assert(0 <= k < mid.len() && mid[k].name@ == nm);
                    assert(self@[k].name@ == nm);
                }
                if has_name(self@, nm) {
                    let k = choose|k: int| 0 <= k < self@.len() && self@[k].name@ == nm;
                    assert(0 <= k < self@.len() && self@[k].name@ == nm);
                    assert(k != self@.len() - 1);
                    assert(mid[k].name@ == nm);
                }
            }
            assert forall|nm: Seq<u8>| nm != name@ && has_name(s0, nm) implies self@[
            #[trigger] name_idx(self@, nm)] == s0[name_idx(s0, nm)] by {
                let k2 = name_idx(mid, nm);
                assert(has_name(mid, nm));
                assert(0 <= k2 < mid.len() && mid[k2].name@ == nm);
                assert(mid[k2] == s0[name_idx(s0, nm)]);
                assert(self@[k2] == mid[k2]);
                lemma_name_at(self@, nm, k2);
            }
        }
        Ok(None)
    }
}

} // verus!
