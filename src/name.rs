use vstd::prelude::*;
use crate::error::DnsError;
use crate::header::DNS_MAX_HOSTNAME_LEN;

verus! {

/// Walks the labels of an encoded name from `off`, where `acc` octets of the
/// name have been reconstructed so far and `labels` labels counted. Yields the
/// offset just past the name and the number of non-terminal labels.
pub open spec fn walk_labels(p: Seq<u8>, off: int, acc: int, labels: int) -> Result<
    (int, int),
    DnsError,
>
    decreases p.len() - off,
{
    if off < 0 || off >= p.len() {
        Err(DnsError::ShortPacket)
    } else {
        let b = p[off] as int;
        if b >= 0xc0 {
            if p.len() - off < 2 {
                Err(DnsError::IncompleteCompressionPointer)
            } else {
                Ok((off + 2, labels))
            }
        } else if b > 0x3f {
            Err(DnsError::LabelTooLong)
        } else if b >= p.len() - off - 1 {
            Err(DnsError::MalformedName)
        } else if acc + b + 1 > 256 {
            Err(DnsError::NameTooLong)
        } else if b == 0 {
            Ok((off + 1, labels))
        } else {
            walk_labels(p, off + b + 1, acc + b + 1, labels + 1)
        }
    }
}

/// Where the name that starts at `off` ends, and how many labels it has.
/// At least two bytes must remain at `off`.
pub open spec fn name_end(p: Seq<u8>, off: int) -> Result<(int, int), DnsError> {
    if off < 0 || off + 1 >= p.len() {
        Err(DnsError::ShortPacket)
    } else {
        walk_labels(p, off, 0, 0)
    }
}

proof fn lemma_walk_labels_bounds(p: Seq<u8>, off: int, acc: int, labels: int)
    requires
        0 <= acc <= 256,
        0 <= labels,
        labels * 2 <= acc,
    ensures
        walk_labels(p, off, acc, labels) matches Ok((n, k)) ==> off < n <= p.len() && 0 <= k
            <= 128,
    decreases p.len() - off,
{
    if 0 <= off < p.len() {
        let b = p[off] as int;
        if b < 0xc0 && b <= 0x3f && b < p.len() - off - 1 && acc + b + 1 <= 256 && b != 0 {
            lemma_walk_labels_bounds(p, off + b + 1, acc + b + 1, labels + 1);
        }
    }
}

/// Whatever the buffer holds, a name that the walker accepts ends after its
/// start and no later than the end of the buffer.
pub proof fn lemma_name_end_in_bounds(p: Seq<u8>, off: int)
    ensures
        name_end(p, off) matches Ok((n, k)) ==> off < n <= p.len() && 0 <= k <= 128,
{
    if !(off < 0 || off + 1 >= p.len()) {
        lemma_walk_labels_bounds(p, off, 0, 0);
    }
}

/// A name whose first byte is a compression pointer is skipped by exactly two
/// bytes, whatever the pointer designates.
pub proof fn lemma_pointer_first_byte(p: Seq<u8>, off: int)
    requires
        0 <= off,
        off + 1 < p.len(),
        p[off] >= 0xc0,
    ensures
        name_end(p, off) == Ok::<(int, int), DnsError>((off + 2, 0)),
{
}

/// The walk reads no byte before `off`.
pub(crate) proof fn lemma_walk_labels_frame(
    p: Seq<u8>,
    q: Seq<u8>,
    off: int,
    acc: int,
    labels: int,
)
    requires
        p.len() == q.len(),
        forall|i: int| off <= i < p.len() ==> p[i] == q[i],
    ensures
        walk_labels(p, off, acc, labels) == walk_labels(q, off, acc, labels),
    decreases p.len() - off,
{
    if 0 <= off < p.len() {
        let b = p[off] as int;
        if b < 0xc0 && b <= 0x3f && b < p.len() - off - 1 && acc + b + 1 <= 256 && b != 0 {
            lemma_walk_labels_frame(p, q, off + b + 1, acc + b + 1, labels + 1);
        }
    }
}

/// Advances past the encoded name at `offset`: label by label up to a root
/// label, or over a two-byte compression pointer without following it.
/// Returns the offset after the name and its count of non-terminal labels.
pub fn skip_name(packet: &[u8], offset: usize) -> (r: Result<(usize, u16), DnsError>)
    ensures
        match name_end(packet@, offset as int) {
            Ok((n, k)) => r == Ok::<(usize, u16), DnsError>((n as usize, k as u16)),
            Err(e) => r == Err::<(usize, u16), DnsError>(e),
        },
        name_end(packet@, offset as int) matches Ok((n, k)) ==> offset < n <= packet@.len() && 0
            <= k <= 128,
{
    proof {
        lemma_name_end_in_bounds(packet@, offset as int);
    }
    let packet_len = packet.len();
    if offset >= packet_len || packet_len - offset < 2 {
        return Err(DnsError::ShortPacket);
    }
    proof {
        lemma_walk_labels_bounds(packet@, offset as int, 0, 0);
    }
    let mut name_len: usize = 0;
    let mut off: usize = offset;
    let mut labels_count: u16 = 0;
    loop
        invariant
            offset <= off < packet_len,
            packet_len == packet@.len(),
            0 <= name_len <= 256,
            labels_count * 2 <= name_len,
            walk_labels(packet@, off as int, name_len as int, labels_count as int) == walk_labels(
                packet@,
                offset as int,
                0,
                0,
            ),
            offset + 1 < packet_len,
        decreases packet_len - off,
    {
        let len = packet[off];
        if len & 0xc0 == 0xc0 {
            assert(len & 0xc0 == 0xc0 <==> len >= 0xc0) by (bit_vector);
            if packet_len - off < 2 {
                return Err(DnsError::IncompleteCompressionPointer);
            }
            return Ok((off + 2, labels_count));
        }
        assert(len & 0xc0 != 0xc0 <==> len < 0xc0) by (bit_vector);
        if len > 0x3f {
            return Err(DnsError::LabelTooLong);
        }
        let label_len = len as usize;
        if label_len >= packet_len - off - 1 {
            return Err(DnsError::MalformedName);
        }
        if name_len + label_len + 1 > DNS_MAX_HOSTNAME_LEN {
            return Err(DnsError::NameTooLong);
        }
        if label_len == 0 {
            return Ok((off + 1, labels_count));
        }
        name_len = name_len + label_len + 1;
        off = off + label_len + 1;
        labels_count = labels_count + 1;
    }
}

} // verus!
