//! The secure datagram layer above a UDP socket: every payload is sealed as
//! `[12-byte nonce][ciphertext||tag]`, nonces are a 4-byte per-link random
//! prefix plus a strictly increasing 8-byte big-endian counter, and an
//! opt-in reliable sub-channel retransmits sequence-numbered payloads until
//! they are acknowledged or abandoned.
//!
//! The link owns no socket: it turns payloads into wire frames and wire
//! frames back into payloads, and the caller moves the frames.

use vstd::prelude::*;

use crate::bytes::{lemma_u64_be_injective, push_u64_be, spec_u64_be};
use crate::crypto::{chacha_open, chacha_seal, random_prefix4, seal_of};
use crate::protocol::{
    classify_plaintext, encode_ack, encode_reliable_wrap, spec_classify_plaintext,
    spec_encode_ack, spec_encode_reliable_wrap, ClientPacketType, PlainClass,
};

verus! {

/// An IPv4 peer endpoint, as the library models network addresses.
#[derive(Clone, Copy, PartialEq, Eq, Structural, Debug, Hash)]
pub struct Endpoint {
    pub ip: u32,
    pub port: u16,
}

/// Milliseconds a reliable packet may wait before it is resent.
pub const RETRY_TIMEOUT_MS: u64 = 200;

/// Resends after which a reliable packet is abandoned.
pub const MAX_RETRIES: u8 = 5;

/// Transport failures of the secure datagram layer.
#[derive(Clone, Copy, PartialEq, Eq, Structural, Debug)]
pub enum RecvError {
    /// The frame failed authenticated decryption.
    DecryptionFailure,
    /// Fewer than the 12 nonce bytes arrived.
    FrameTooSmall,
    /// No datagram is available on the non-blocking socket.
    WouldBlock,
    /// The plaintext exceeds the receive buffer.
    BufferOverflow,
}

/// One reliable payload awaiting acknowledgement.
#[verifier::ext_equal]
pub struct PendingPacket {
    pub sequence: u32,
    /// The reliable-wrapped plaintext, resealed afresh on every resend.
    pub data: Vec<u8>,
    pub addr: Endpoint,
    pub last_sent_ms: u64,
    pub retries: u8,
}

/// What one opened datagram yielded.
pub enum Opened {
    /// An ordinary payload.
    Payload(Vec<u8>),
    /// A reliable payload, with the acknowledgement frame to send back.
    Reliable { payload: Vec<u8>, ack: Vec<u8> },
    /// An acknowledgement, already applied to the pending table.
    AckProcessed(u32),
}

/// The sealing and reliability state of one secure socket.
pub struct SecureLink {
    key: Vec<u8>,
    nonce_prefix: Vec<u8>,
    nonce_counter: u64,
    seq_counter: u32,
    pending: Vec<PendingPacket>,
}

/// The nonce a link with this prefix uses at a counter value.
pub open spec fn spec_nonce(prefix: Seq<u8>, counter: u64) -> Seq<u8> {
    prefix + spec_u64_be(counter)
}

/// Distinct counter values never yield the same nonce: nonces are unique for
/// the lifetime of a link as long as its counter does not wrap.
pub proof fn lemma_nonce_unique(prefix: Seq<u8>, c1: u64, c2: u64)
    requires
        c1 != c2,
    ensures
        spec_nonce(prefix, c1) != spec_nonce(prefix, c2),
{
    if spec_nonce(prefix, c1) == spec_nonce(prefix, c2) {
        assert(spec_u64_be(c1) =~= spec_nonce(prefix, c1).subrange(
            prefix.len() as int,
            prefix.len() as int + 8,
        ));
        assert(spec_u64_be(c2) =~= spec_nonce(prefix, c2).subrange(
            prefix.len() as int,
            prefix.len() as int + 8,
        ));
        lemma_u64_be_injective(c1, c2);
    }
}

/// The full wire frame for a payload sealed at a counter value.
pub open spec fn spec_sealed_frame(
    key: Seq<u8>,
    prefix: Seq<u8>,
    counter: u64,
    payload: Seq<u8>,
) -> Seq<u8> {
    spec_nonce(prefix, counter) + seal_of(key, spec_nonce(prefix, counter), payload)
}

/// The pending table with every entry for `sequence` dropped.
pub open spec fn spec_remove_seq(ps: Seq<PendingPacket>, sequence: u32) -> Seq<PendingPacket>
    decreases ps.len(),
{
    if ps.len() == 0 {
        Seq::empty()
    } else {
        spec_remove_seq(ps.drop_last(), sequence) + (if ps.last().sequence != sequence {
            seq![ps.last()]
        } else {
            Seq::empty()
        })
    }
}

/// Whether a pending entry is due for a resend now.
pub open spec fn spec_entry_due(p: PendingPacket, now_ms: u64) -> bool {
    p.retries < MAX_RETRIES && p.last_sent_ms + RETRY_TIMEOUT_MS <= now_ms
}

/// One entry after a tick: resent entries carry a fresh send time and retry
/// count, the rest stay as they are.
pub open spec fn spec_entry_after_tick(p: PendingPacket, now_ms: u64) -> PendingPacket {
    if spec_entry_due(p, now_ms) {
        PendingPacket {
            sequence: p.sequence,
            data: p.data,
            addr: p.addr,
            last_sent_ms: now_ms,
            retries: (p.retries + 1) as u8,
        }
    } else {
        p
    }
}

/// The pending table after a tick: exhausted entries are abandoned, due ones
/// are refreshed.
pub open spec fn spec_tick_pending(ps: Seq<PendingPacket>, now_ms: u64) -> Seq<PendingPacket>
    decreases ps.len(),
{
    if ps.len() == 0 {
        Seq::empty()
    } else {
        spec_tick_pending(ps.drop_last(), now_ms) + (if ps.last().retries < MAX_RETRIES {
            seq![spec_entry_after_tick(ps.last(), now_ms)]
        } else {
            Seq::empty()
        })
    }
}

/// The entries a tick resends, in table order.
pub open spec fn spec_due_entries(ps: Seq<PendingPacket>, now_ms: u64) -> Seq<PendingPacket>
    decreases ps.len(),
{
    if ps.len() == 0 {
        Seq::empty()
    } else {
        spec_due_entries(ps.drop_last(), now_ms) + (if spec_entry_due(ps.last(), now_ms) {
            seq![ps.last()]
        } else {
            Seq::empty()
        })
    }
}

impl SecureLink {
    /// Structural soundness: a 32-byte key, a 4-byte nonce prefix, and
    /// pending payloads that are nonempty reliable wraps small enough to
    /// reseal.
    pub closed spec fn wf(self) -> bool {
        &&& self.key@.len() == 32
        &&& self.nonce_prefix@.len() == 4
        &&& forall|i: int|
            0 <= i < self.pending@.len() ==> 6 <= (#[trigger] self.pending@[i]).data@.len()
                < 0x100000000
    }

    pub closed spec fn spec_key(self) -> Seq<u8> {
        self.key@
    }

    pub closed spec fn spec_prefix(self) -> Seq<u8> {
        self.nonce_prefix@
    }

    pub closed spec fn spec_nonce_counter(self) -> u64 {
        self.nonce_counter
    }

    pub closed spec fn spec_seq_counter(self) -> u32 {
        self.seq_counter
    }

    pub closed spec fn spec_pending(self) -> Seq<PendingPacket> {
        self.pending@
    }

    /// A fresh link over a derived key: counter at zero, first sequence
    /// number 1, nothing pending, and a prefix from the system RNG.
    pub fn create(key: Vec<u8>) -> (r: SecureLink)
        requires
            key@.len() == 32,
        ensures
            r.wf(),
            r.spec_key() == key@,
            r.spec_nonce_counter() == 0,
            r.spec_seq_counter() == 1,
            r.spec_pending() == Seq::<PendingPacket>::empty(),
    {
        let nonce_prefix = random_prefix4();
        let link = SecureLink {
            key,
            nonce_prefix,
            nonce_counter: 0,
            seq_counter: 1,
            pending: Vec::new(),
        };
        assert(link.pending@ =~= Seq::<PendingPacket>::empty());
        link
    }

    /// Number of reliable sends still awaiting acknowledgement.
    pub fn pending_len(&self) -> (r: usize)
        ensures
            r == self.spec_pending().len(),
    {
        self.pending.len()
    }

    /// Nonces used so far; callers check it against the sealing functions'
    /// no-wrap preconditions.
    pub fn nonce_counter(&self) -> (r: u64)
        ensures
            r == self.spec_nonce_counter(),
    {
        self.nonce_counter
    }

    /// The next reliable sequence number to be assigned.
    pub fn seq_counter(&self) -> (r: u32)
        ensures
            r == self.spec_seq_counter(),
    {
        self.seq_counter
    }

    /// Seals one payload into a wire frame under a fresh nonce and advances
    /// the nonce counter, so no two frames this link seals share a nonce.
    pub fn seal_datagram(&mut self, payload: &[u8]) -> (r: Vec<u8>)
        requires
            old(self).wf(),
            old(self).spec_nonce_counter() < u64::MAX,
            payload@.len() < 0x100000000,
        ensures
            final(self).wf(),
            final(self).spec_key() == old(self).spec_key(),
            final(self).spec_prefix() == old(self).spec_prefix(),
            final(self).spec_seq_counter() == old(self).spec_seq_counter(),
            final(self).spec_pending() == old(self).spec_pending(),
            final(self).spec_nonce_counter() == old(self).spec_nonce_counter() + 1,
            r@ == spec_sealed_frame(
                old(self).spec_key(),
                old(self).spec_prefix(),
                old(self).spec_nonce_counter(),
                payload@,
            ),
            r@.len() == payload@.len() + 28,
            r@.subrange(0, 12) == spec_nonce(
                old(self).spec_prefix(),
                old(self).spec_nonce_counter(),
            ),
    {
        let counter = self.nonce_counter;
        self.nonce_counter = self.nonce_counter + 1;
        let mut nonce: Vec<u8> = Vec::new();
        nonce.extend_from_slice(self.nonce_prefix.as_slice());
        push_u64_be(&mut nonce, counter);
        assert(nonce@ =~= spec_nonce(self.nonce_prefix@, counter));
        let sealed = match chacha_seal(self.key.as_slice(), nonce.as_slice(), payload) {
            Some(c) => c,
            None => {
                proof {
                    assert(false);
                }
                Vec::new()
            },
        };
        let mut frame = nonce;
        frame.extend_from_slice(sealed.as_slice());
        assert(frame@ =~= spec_sealed_frame(self.key@, self.nonce_prefix@, counter, payload@));
        assert(frame@.subrange(0, 12) =~= spec_nonce(self.nonce_prefix@, counter));
        frame
    }

    /// Wraps a payload for the reliable sub-channel, seals it, and records it
    /// as pending under a fresh sequence number.
    pub fn send_reliable(&mut self, payload: &[u8], addr: Endpoint, now_ms: u64) -> (r: Vec<u8>)
        requires
            old(self).wf(),
            old(self).spec_nonce_counter() < u64::MAX,
            old(self).spec_seq_counter() < u32::MAX,
            1 <= payload@.len(),
            payload@.len() + 5 < 0x100000000,
        ensures
            final(self).wf(),
            final(self).spec_key() == old(self).spec_key(),
            final(self).spec_prefix() == old(self).spec_prefix(),
            final(self).spec_nonce_counter() == old(self).spec_nonce_counter() + 1,
            final(self).spec_seq_counter() == old(self).spec_seq_counter() + 1,
            final(self).spec_pending() == old(self).spec_pending().push(
                PendingPacket {
                    sequence: old(self).spec_seq_counter(),
                    data: final(self).spec_pending().last().data,
                    addr,
                    last_sent_ms: now_ms,
                    retries: 0,
                },
            ),
            final(self).spec_pending().last().data@ == spec_encode_reliable_wrap(
                old(self).spec_seq_counter(),
                payload@,
            ),
            r@ == spec_sealed_frame(
                old(self).spec_key(),
                old(self).spec_prefix(),
                old(self).spec_nonce_counter(),
                spec_encode_reliable_wrap(old(self).spec_seq_counter(), payload@),
            ),
    {
        let sequence = self.seq_counter;
        self.seq_counter = self.seq_counter + 1;
        let wrapped = encode_reliable_wrap(sequence, payload);
        let frame = self.seal_datagram(wrapped.as_slice());
        self.pending.push(
            PendingPacket { sequence, data: wrapped, addr, last_sent_ms: now_ms, retries: 0 },
        );
        frame
    }

    /// Sends one application payload, choosing the channel by its tag: chat
    /// forwards, flows, command replies and direct messages go reliably, all
    /// else as a plain sealed datagram. Returns `None` only on an empty
    /// payload.
    pub fn send_payload(&mut self, payload: &[u8], addr: Endpoint, now_ms: u64) -> (r: Option<
        Vec<u8>,
    >)
        requires
            old(self).wf(),
            old(self).spec_nonce_counter() < u64::MAX,
            old(self).spec_seq_counter() < u32::MAX,
            payload@.len() + 5 < 0x100000000,
        ensures
            final(self).wf(),
            r is None <==> payload@.len() == 0,
            payload@.len() == 0 ==> *final(self) == *old(self),
            final(self).spec_key() == old(self).spec_key(),
            final(self).spec_prefix() == old(self).spec_prefix(),
            payload@.len() >= 1 && spec_payload_is_reliable(payload@) ==> (r matches Some(w)
                && w@ == spec_sealed_frame(
                old(self).spec_key(),
                old(self).spec_prefix(),
                old(self).spec_nonce_counter(),
                spec_encode_reliable_wrap(old(self).spec_seq_counter(), payload@),
            ) && final(self).spec_pending() == old(self).spec_pending().push(
                final(self).spec_pending().last(),
            ) && final(self).spec_pending().last().sequence == old(self).spec_seq_counter()
                && final(self).spec_pending().last().data@ == spec_encode_reliable_wrap(
                old(self).spec_seq_counter(),
                payload@,
            ) && final(self).spec_pending().last().addr == addr && final(self).spec_pending().last().last_sent_ms == now_ms && final(self).spec_pending().last().retries == 0 && final(self).spec_seq_counter() == old(self).spec_seq_counter() + 1),
            payload@.len() >= 1 && !spec_payload_is_reliable(payload@) ==> (r matches Some(w)
                && w@ == spec_sealed_frame(
                old(self).spec_key(),
                old(self).spec_prefix(),
                old(self).spec_nonce_counter(),
                payload@,
            ) && final(self).spec_pending() == old(self).spec_pending() && final(self).spec_seq_counter() == old(self).spec_seq_counter()),
            payload@.len() >= 1 ==> final(self).spec_nonce_counter() == old(self).spec_nonce_counter() + 1,
    {
        if payload.len() == 0 {
            return None;
        }
        let reliable = match ClientPacketType::try_from(payload[0]) {
            Ok(t) => t.is_reliable(),
            Err(_) => false,
        };
        if reliable {
            Some(self.send_reliable(payload, addr, now_ms))
        } else {
            Some(self.seal_datagram(payload))
        }
    }

    /// Drops every pending entry for an acknowledged sequence number.
    fn apply_ack(&mut self, sequence: u32)
        ensures
            final(self).spec_pending() == spec_remove_seq(old(self).spec_pending(), sequence),
            final(self).spec_key() == old(self).spec_key(),
            final(self).spec_prefix() == old(self).spec_prefix(),
            final(self).spec_nonce_counter() == old(self).spec_nonce_counter(),
            final(self).spec_seq_counter() == old(self).spec_seq_counter(),
            old(self).wf() ==> final(self).wf(),
    {
        let ghost ps0 = self.pending@;
        let mut kept: Vec<PendingPacket> = Vec::new();
        while self.pending.len() > 0
            invariant
                self.pending@.len() <= ps0.len(),
                self.pending@ =~= ps0.skip(ps0.len() - self.pending@.len()),
                self.spec_key() == old(self).spec_key(),
                self.spec_prefix() == old(self).spec_prefix(),
                self.spec_nonce_counter() == old(self).spec_nonce_counter(),
                self.spec_seq_counter() == old(self).spec_seq_counter(),
                kept@ == spec_remove_seq(
                    ps0.take(ps0.len() - self.pending@.len()),
                    sequence,
                ),
                forall|k: int|
                    0 <= k < kept@.len() ==> exists|j: int|
                        0 <= j < ps0.len() && #[trigger] kept@[k] == ps0[j],
            decreases self.pending@.len(),
        {
            let ghost i = ps0.len() - self.pending@.len();
            let p = self.pending.remove(0);
            proof {
                assert(p == ps0[i as int]);
                assert(self.pending@ =~= ps0.skip(i + 1));
                assert(ps0.take(i + 1).drop_last() =~= ps0.take(i as int));
                assert(ps0.take(i + 1).last() == ps0[i as int]);
            }
            if p.sequence != sequence {
                kept.push(p);
                assert(kept@ =~= spec_remove_seq(ps0.take(i + 1), sequence));
            } else {
                assert(kept@ =~= spec_remove_seq(ps0.take(i + 1), sequence));
            }
        }
        proof {
            assert(ps0.take(ps0.len() as int) =~= ps0);
        }
        self.pending = kept;
    }

    /// Opens one received wire frame: too-short frames and frames that fail
    /// authentication are rejected; acknowledgements clear their pending
    /// entry; reliable wraps yield their payload plus the acknowledgement
    /// frame to send back; everything else is handed through as a payload.
    ///
    /// In particular any frame this link's peer sealed over the same key
    /// opens to exactly the payload that was sealed.
    pub fn open_datagram(&mut self, wire: &[u8]) -> (r: Result<Opened, RecvError>)
        requires
            old(self).wf(),
            old(self).spec_nonce_counter() < u64::MAX,
        ensures
            final(self).wf(),
            final(self).spec_key() == old(self).spec_key(),
            final(self).spec_prefix() == old(self).spec_prefix(),
            final(self).spec_seq_counter() == old(self).spec_seq_counter(),
            wire@.len() < 12 <==> r == Err::<Opened, RecvError>(RecvError::FrameTooSmall),
            r is Err ==> *final(self) == *old(self),
            wire@.len() >= 12 && (forall|m: Seq<u8>|
                wire@.subrange(12, wire@.len() as int) != seal_of(
                    old(self).spec_key(),
                    wire@.subrange(0, 12),
                    m,
                )) ==> r == Err::<Opened, RecvError>(RecvError::DecryptionFailure),
            forall|m: Seq<u8>|
                (wire@.len() >= 12 && wire@.subrange(12, wire@.len() as int) == seal_of(
                    old(self).spec_key(),
                    wire@.subrange(0, 12),
                    m,
                )) ==> match spec_classify_plaintext(m) {
                    None => (r matches Ok(o) && o matches Opened::Payload(p) && p@ == m && *final(self) == *old(self)),
                    Some((sequence, inner)) => match inner {
                        None => (r matches Ok(o) && o matches Opened::AckProcessed(s) && s
                            == sequence && final(self).spec_pending() == spec_remove_seq(
                            old(self).spec_pending(),
                            sequence,
                        ) && final(self).spec_nonce_counter() == old(self).spec_nonce_counter()),
                        Some(body) => (r matches Ok(o) && o matches Opened::Reliable {
                            payload: p,
                            ack: a,
                        } && p@ == body && a@ == spec_sealed_frame(
                            old(self).spec_key(),
                            old(self).spec_prefix(),
                            old(self).spec_nonce_counter(),
                            spec_encode_ack(sequence),
                        ) && final(self).spec_pending() == old(self).spec_pending() && final(self).spec_nonce_counter() == old(self).spec_nonce_counter() + 1),
                    },
                },
    {
        if wire.len() < 12 {
            return Err(RecvError::FrameTooSmall);
        }
        let nonce = crate::bytes::copy_range(wire, 0, 12);
        let ciphertext = crate::bytes::copy_range(wire, 12, wire.len());
        match chacha_open(self.key.as_slice(), nonce.as_slice(), ciphertext.as_slice()) {
            None => Err(RecvError::DecryptionFailure),
            Some(plain) => {
                match classify_plaintext(plain.as_slice()) {
                    PlainClass::Ack(sequence) => {
                        self.apply_ack(sequence);
                        Ok(Opened::AckProcessed(sequence))
                    },
                    PlainClass::Reliable(sequence, payload) => {
                        let ack_plain = encode_ack(sequence);
                        let ack = self.seal_datagram(ack_plain.as_slice());
                        Ok(Opened::Reliable { payload, ack })
                    },
                    PlainClass::Plain => Ok(Opened::Payload(plain)),
                }
            },
        }
    }

    /// Resends every pending packet older than the retry timeout under a
    /// fresh nonce, counts the retry, and abandons packets that have used up
    /// their retries. Returns the frames to transmit, in table order.
    pub fn tick_reliable(&mut self, now_ms: u64) -> (frames: Vec<(Endpoint, Vec<u8>)>)
        requires
            old(self).wf(),
            old(self).spec_nonce_counter() + old(self).spec_pending().len() <= u64::MAX,
        ensures
            final(self).wf(),
            final(self).spec_key() == old(self).spec_key(),
            final(self).spec_prefix() == old(self).spec_prefix(),
            final(self).spec_seq_counter() == old(self).spec_seq_counter(),
            final(self).spec_pending() == spec_tick_pending(old(self).spec_pending(), now_ms),
            final(self).spec_nonce_counter() == old(self).spec_nonce_counter()
                + spec_due_entries(old(self).spec_pending(), now_ms).len(),
            frames@.len() == spec_due_entries(old(self).spec_pending(), now_ms).len(),
            forall|j: int|
                0 <= j < frames@.len() ==> {
                    let due = spec_due_entries(old(self).spec_pending(), now_ms);
                    (#[trigger] frames@[j]).0 == due[j].addr && frames@[j].1@
                        == spec_sealed_frame(
                        old(self).spec_key(),
                        old(self).spec_prefix(),
                        (old(self).spec_nonce_counter() + j) as u64,
                        due[j].data@,
                    )
                },
    {
        let ghost ps0 = self.pending@;
        let mut kept: Vec<PendingPacket> = Vec::new();
        let mut frames: Vec<(Endpoint, Vec<u8>)> = Vec::new();
        proof {
            lemma_due_entries_bound(ps0, now_ms);
        }
        while self.pending.len() > 0
            invariant
                self.wf(),
                self.pending@.len() <= ps0.len(),
                self.pending@ =~= ps0.skip(ps0.len() - self.pending@.len()),
                forall|idx: int|
                    0 <= idx < ps0.len() ==> 6 <= (#[trigger] ps0[idx]).data@.len()
                        < 0x100000000,
                self.spec_key() == old(self).spec_key(),
                self.spec_prefix() == old(self).spec_prefix(),
                self.spec_seq_counter() == old(self).spec_seq_counter(),
                old(self).spec_nonce_counter() + ps0.len() <= u64::MAX,
                kept@ == spec_tick_pending(
                    ps0.take(ps0.len() - self.pending@.len()),
                    now_ms,
                ),
                forall|k: int|
                    0 <= k < kept@.len() ==> 6 <= (#[trigger] kept@[k]).data@.len()
                        < 0x100000000,
                self.spec_nonce_counter() == old(self).spec_nonce_counter()
                    + spec_due_entries(
                    ps0.take(ps0.len() - self.pending@.len()),
                    now_ms,
                ).len(),
                frames@.len() == spec_due_entries(
                    ps0.take(ps0.len() - self.pending@.len()),
                    now_ms,
                ).len(),
                forall|j: int|
                    0 <= j < frames@.len() ==> {
                        let due = spec_due_entries(
                            ps0.take(ps0.len() - self.pending@.len()),
                            now_ms,
                        );
                        (#[trigger] frames@[j]).0 == due[j].addr && frames@[j].1@
                            == spec_sealed_frame(
                            old(self).spec_key(),
                            old(self).spec_prefix(),
                            (old(self).spec_nonce_counter() + j) as u64,
                            due[j].data@,
                        )
                    },
            decreases self.pending@.len(),
        {
            let ghost i = ps0.len() - self.pending@.len();
            let ghost taken = ps0.take(i as int);
            proof {
                lemma_due_entries_bound(taken, now_ms);
                lemma_due_entries_bound(ps0.take(i + 1), now_ms);
                assert(ps0.take(i + 1).drop_last() =~= taken);
                assert(ps0.take(i + 1).last() == ps0[i as int]);
            }
            let p = self.pending.remove(0);
            proof {
                assert(p == ps0[i as int]);
                assert(self.pending@ =~= ps0.skip(i + 1));
            }
            let due: bool = p.retries < MAX_RETRIES && now_ms >= RETRY_TIMEOUT_MS
                && p.last_sent_ms <= now_ms - RETRY_TIMEOUT_MS;
            let keep: bool = p.retries < MAX_RETRIES;
            if due {
                let frame = self.seal_datagram(p.data.as_slice());
                frames.push((p.addr, frame));
                kept.push(
                    PendingPacket {
                        sequence: p.sequence,
                        data: p.data,
                        addr: p.addr,
                        last_sent_ms: now_ms,
                        retries: p.retries + 1,
                    },
                );
                proof {
                    let due_seq = spec_due_entries(ps0.take(i + 1), now_ms);
                    assert(due_seq =~= spec_due_entries(taken, now_ms).push(ps0[i as int]));
                    assert(kept@.last() == spec_entry_after_tick(ps0[i as int], now_ms));
                    assert(kept@ =~= spec_tick_pending(ps0.take(i + 1), now_ms));
                    assert(forall|j: int|
                        0 <= j < due_seq.len() - 1 ==> due_seq[j] == spec_due_entries(
                            taken,
                            now_ms,
                        )[j]);
                }
            } else {
                if keep {
                    assert(!spec_entry_due(ps0[i as int], now_ms));
                    kept.push(p);
                    assert(kept@.last() == spec_entry_after_tick(ps0[i as int], now_ms));
                    assert(kept@ =~= spec_tick_pending(ps0.take(i + 1), now_ms));
                } else {
                    assert(kept@ =~= spec_tick_pending(ps0.take(i + 1), now_ms));
                }
                proof {
                    assert(spec_due_entries(ps0.take(i + 1), now_ms) =~= spec_due_entries(
                        taken,
                        now_ms,
                    ));
                }
            }
        }
        proof {
            assert(ps0.take(ps0.len() as int) =~= ps0);
        }
        self.pending = kept;
        frames
    }
}

/// A reliable payload addressed by its first byte goes on the reliable
/// sub-channel; unknown first bytes are treated as audio and stay
/// best-effort.
pub open spec fn spec_payload_is_reliable(payload: Seq<u8>) -> bool {
    payload.len() >= 1 && match ClientPacketType::spec_try_from(payload[0]) {
        Some(t) => t.spec_is_reliable(),
        None => false,
    }
}

/// There are never more due entries than pending ones.
pub proof fn lemma_due_entries_bound(ps: Seq<PendingPacket>, now_ms: u64)
    ensures
        spec_due_entries(ps, now_ms).len() <= ps.len(),
        spec_tick_pending(ps, now_ms).len() <= ps.len(),
    decreases ps.len(),
{
    if ps.len() > 0 {
        lemma_due_entries_bound(ps.drop_last(), now_ms);
    }
}

/// Acknowledging the sequence number of the packet just sent, when no other
/// pending entry shares it, returns the pending table to its prior state: a
/// lossless reliable exchange leaves nothing pending.
pub proof fn lemma_ack_clears_send(ps: Seq<PendingPacket>, p: PendingPacket)
    requires
        forall|i: int| 0 <= i < ps.len() ==> (#[trigger] ps[i]).sequence != p.sequence,
    ensures
        spec_remove_seq(ps.push(p), p.sequence) == spec_remove_seq(ps, p.sequence),
        spec_remove_seq(ps, p.sequence) == ps,
    decreases ps.len(),
{
    assert(ps.push(p).drop_last() =~= ps);
    if ps.len() > 0 {
        assert(forall|i: int|
            0 <= i < ps.drop_last().len() ==> (#[trigger] ps.drop_last()[i]).sequence
                != p.sequence);
        lemma_ack_clears_send(ps.drop_last(), p);
        assert(ps.last().sequence != p.sequence);
        assert(spec_remove_seq(ps, p.sequence) =~= ps.drop_last() + seq![ps.last()]);
        assert(ps.drop_last() + seq![ps.last()] =~= ps);
    } else {
        assert(spec_remove_seq(ps, p.sequence) =~= ps);
    }
}

/// An entry that has used up its retries is abandoned by the next tick.
pub proof fn lemma_tick_abandons_exhausted(ps: Seq<PendingPacket>, now_ms: u64, i: int)
    requires
        0 <= i < ps.len(),
        ps[i].retries >= MAX_RETRIES,
        forall|j: int, k: int|
            0 <= j < k < ps.len() ==> (#[trigger] ps[j]).sequence != (#[trigger] ps[k]).sequence,
    ensures
        forall|j: int|
            0 <= j < spec_tick_pending(ps, now_ms).len() ==> (#[trigger] spec_tick_pending(
                ps,
                now_ms,
            )[j]).sequence != ps[i].sequence,
    decreases ps.len(),
{
    let out = spec_tick_pending(ps, now_ms);
    if ps.len() > 0 {
        let head = ps.drop_last();
        if i == ps.len() - 1 {
            assert(out =~= spec_tick_pending(head, now_ms));
            lemma_tick_keeps_known(head, now_ms, ps[i].sequence);
        } else {
            lemma_tick_abandons_exhausted(head, now_ms, i);
            if ps.last().retries < MAX_RETRIES {
                assert(ps.last().sequence != ps[i].sequence);
                assert(out =~= spec_tick_pending(head, now_ms).push(
                    spec_entry_after_tick(ps.last(), now_ms),
                ));
            } else {
                assert(out =~= spec_tick_pending(head, now_ms));
            }
        }
    }
}

/// Every sequence number a tick keeps was already pending before it.
pub proof fn lemma_tick_keeps_known(ps: Seq<PendingPacket>, now_ms: u64, sequence: u32)
    requires
        forall|j: int| 0 <= j < ps.len() ==> (#[trigger] ps[j]).sequence != sequence,
    ensures
        forall|j: int|
            0 <= j < spec_tick_pending(ps, now_ms).len() ==> (#[trigger] spec_tick_pending(
                ps,
                now_ms,
            )[j]).sequence != sequence,
    decreases ps.len(),
{
    if ps.len() > 0 {
        lemma_tick_keeps_known(ps.drop_last(), now_ms, sequence);
        if ps.last().retries < MAX_RETRIES {
            assert(spec_tick_pending(ps, now_ms) =~= spec_tick_pending(
                ps.drop_last(),
                now_ms,
            ).push(spec_entry_after_tick(ps.last(), now_ms)));
        } else {
            assert(spec_tick_pending(ps, now_ms) =~= spec_tick_pending(ps.drop_last(), now_ms));
        }
    }
}

} // verus!
