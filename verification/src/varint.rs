//! Unsigned base-128 varints.
//!
//! Strings in a memdb are stored as a varint length followed by the raw
//! bytes.  The encoding is little-endian base 128: each byte carries seven
//! low-order bits, and the high bit says that another byte follows.

use vstd::prelude::*;

verus! {

/// The varint encoding of `n`.
pub open spec fn varint(n: nat) -> Seq<u8>
    decreases n,
{
    if n < 128 {
        seq![n as u8]
    } else {
        seq![(128 + (n % 128)) as u8] + varint(n / 128)
    }
}

/// The value and end position of the varint starting at `pos`, or `None`
/// if the buffer ends inside it.
pub open spec fn varint_at(s: Seq<u8>, pos: int) -> Option<(nat, int)>
    decreases s.len() - pos,
{
    if pos < 0 || pos >= s.len() {
        None
    } else if s[pos] < 128 {
        Some((s[pos] as nat, pos + 1))
    } else {
        match varint_at(s, pos + 1) {
            None => None,
            Some((n, e)) => Some((((s[pos] - 128) + 128 * n) as nat, e)),
        }
    }
}

/// A buffer that holds `varint(n)` at `pos` decodes to `n` there.
pub proof fn lemma_varint_at(s: Seq<u8>, pos: int, n: nat)
    requires
        0 <= pos,
        pos + varint(n).len() <= s.len(),
        s.subrange(pos, pos + varint(n).len()) =~= varint(n),
    ensures
        varint_at(s, pos) == Some((n, pos + varint(n).len())),
    decreases n,
{
    if n < 128 {
        assert(s[pos] == varint(n)[0]);
    } else {
        assert(s[pos] == varint(n)[0]);
        assert(s.subrange(pos + 1, pos + 1 + varint(n / 128).len()) =~= varint(n / 128)) by {
            let sub = s.subrange(pos, pos + varint(n).len());
            assert(s.subrange(pos + 1, pos + 1 + varint(n / 128).len()) =~= sub.subrange(
                1,
                varint(n).len() as int,
            ));
            assert(sub.subrange(1, varint(n).len() as int) =~= varint(n / 128));
        }
        lemma_varint_at(s, pos + 1, n / 128);
        assert(s[pos] == 128 + (n % 128));
    }
}

/// A decoded varint ends after its start and within the buffer.
pub proof fn lemma_varint_at_bounds(s: Seq<u8>, pos: int)
    ensures
        varint_at(s, pos) matches Some(p) ==> pos < p.1 <= s.len(),
    decreases s.len() - pos,
{
    if 0 <= pos < s.len() && s[pos] >= 128 {
        lemma_varint_at_bounds(s, pos + 1);
    }
}

/// Extending a buffer beyond a decodable varint does not change it.
pub proof fn lemma_varint_at_prefix(b1: Seq<u8>, b2: Seq<u8>, pos: int)
    requires
        0 <= pos,
        b1.len() <= b2.len(),
        forall|k: int| 0 <= k < b1.len() ==> b1[k] == #[trigger] b2[k],
        varint_at(b1, pos) is Some,
    ensures
        varint_at(b2, pos) == varint_at(b1, pos),
    decreases b1.len() - pos,
{
    if pos < b1.len() && b1[pos] >= 128 {
        lemma_varint_at_prefix(b1, b2, pos + 1);
    }
}

/// A varint depends only on the bytes from its start on.
pub proof fn lemma_varint_at_agree(s1: Seq<u8>, s2: Seq<u8>, pos: int)
    requires
        0 <= pos,
        s1.len() == s2.len(),
        forall|k: int| pos <= k < s1.len() ==> s1[k] == #[trigger] s2[k],
    ensures
        varint_at(s1, pos) == varint_at(s2, pos),
    decreases s1.len() - pos,
{
    if 0 <= pos < s1.len() {
        lemma_varint_at_agree(s1, s2, pos + 1);
    }
}

/// Appends the varint encoding of `value` to `out`.
pub fn varint_encode(out: &mut Vec<u8>, value: u64)
    ensures
        final(out)@ =~= old(out)@ + varint(value as nat),
{
    let mut value = value;
    let ghost v0 = value;
    while value >= 128
        invariant
            out@ + varint(value as nat) =~= old(out)@ + varint(v0 as nat),
        decreases value,
    {
        out.push((value % 128 + 128) as u8);
        value = value / 128;
    }
    out.push(value as u8);
}

/// Reads the varint starting at `pos`; `None` on a truncated varint or on
/// a value that does not fit in 64 bits.
pub fn varint_decode(buf: &[u8], pos: usize) -> (r: Option<(u64, usize)>)
    ensures
        match varint_at(buf@, pos as int) {
            None => r is None,
            Some((n, e)) => {
                if n <= u64::MAX {
                    r == Some((n as u64, e as usize)) && pos < e <= buf@.len()
                } else {
                    r is None
                }
            },
        },
    decreases buf@.len() - pos,
{
    if pos >= buf.len() {
        return None;
    }
    let b = *vstd::slice::slice_index_get(buf, pos);
    if b < 128 {
        Some((b as u64, pos + 1))
    } else {
        match varint_decode(buf, pos + 1) {
            None => None,
            Some((n, e)) => {
                let head = (b - 128) as u64;
                if n <= (u64::MAX - head) / 128 {
                    Some((head + 128 * n, e))
                } else {
                    None
                }
            },
        }
    }
}

} // verus!
