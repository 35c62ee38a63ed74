//! Packing directions into bytes at two bits per symbol, and unpacking them.
//!
//! A byte holds a group of up to four directions, most significant symbol
//! first. The final group may be smaller than four; its codes are
//! left-justified and the remaining low-order bits are zero padding. A count
//! of how many directions the final byte holds travels beside the bytes,
//! because the byte itself cannot distinguish trailing padding from the code
//! of `Up`, which is also zero.

use vstd::prelude::*;

use crate::direction::{code_of, direction_of, Direction};

verus! {

/// How many directions the final packed byte holds (0 through 4).
pub type DirectionsInLastByte = u8;

/// The ways unpacking can reject its input.
#[derive(Clone, Copy, Debug, PartialEq, Eq, Structural)]
pub enum UnpackError {
    /// The supplied last-byte count is inconsistent with the length of the
    /// byte sequence: outside 1 through 4 for a non-empty buffer, or nonzero
    /// for an empty one.
    MalformedInput,
    /// A 2-bit field did not name any direction. Every 2-bit value does name
    /// one, so this is only reachable if fields were mis-extracted; the
    /// unpacker is proved never to return it.
    InvalidSymbolCode,
}

/// The value of a group of at most four directions read as a base-4 numeral,
/// most significant symbol first.
pub open spec fn group_value(g: Seq<Direction>) -> int
    decreases g.len(),
{
    if g.len() == 0 {
        0
    } else {
        group_value(g.drop_last()) * 4 + code_of(g.last())
    }
}

/// Exclusive upper bound of `group_value` for a group of `len` symbols:
/// 4 to the power `len`, written out for the lengths that occur.
pub open spec fn group_cap(len: int) -> int {
    if len <= 0 {
        1
    } else if len == 1 {
        4
    } else if len == 2 {
        16
    } else if len == 3 {
        64
    } else {
        256
    }
}

/// Weight of the lowest occupied 2-bit slot when a group of `len` symbols is
/// left-justified in a byte: 4 to the power `4 - len`. Multiplying a group's
/// value by it shifts the codes to the most significant end and zero-fills
/// the rest.
pub open spec fn pad_factor(len: int) -> int {
    if len <= 1 {
        64
    } else if len == 2 {
        16
    } else if len == 3 {
        4
    } else {
        1
    }
}

/// The byte packing one non-empty group of at most four directions: codes in
/// group order from the most significant end, unused low-order bits zero.
pub open spec fn group_byte(g: Seq<Direction>) -> u8
    recommends
        1 <= g.len() <= 4,
{
    (group_value(g) * pad_factor(g.len() as int)) as u8
}

/// The count stored beside the packed bytes: 0 for an empty input, otherwise
/// the size of the final group, so the input length modulo 4 with 4 standing
/// in for 0.
pub open spec fn last_group_count(n: nat) -> nat {
    if n == 0 {
        0
    } else if n % 4 == 0 {
        4
    } else {
        n % 4
    }
}

/// The bytes that packing a direction sequence produces: one byte per group
/// of four consecutive symbols, the final group possibly smaller.
pub open spec fn pack_bytes(s: Seq<Direction>) -> Seq<u8>
    decreases s.len(),
{
    if s.len() == 0 {
        Seq::empty()
    } else {
        let full = s.len() - last_group_count(s.len());
        pack_bytes(s.take(full)).push(group_byte(s.skip(full)))
    }
}

/// A group's value is a base-4 numeral of its codes, so it is bounded by
/// 4 to the power of the group's length.
pub proof fn lemma_group_value_bound(g: Seq<Direction>)
    requires
        g.len() <= 4,
    ensures
        0 <= group_value(g) < group_cap(g.len() as int),
    decreases g.len(),
{
    if g.len() > 0 {
        lemma_group_value_bound(g.drop_last());
        assert(code_of(g.last()) <= 3);
    }
}

/// Length law: packing yields exactly one byte per started group of four,
/// that is the input length divided by 4 rounded up.
pub proof fn lemma_pack_length(s: Seq<Direction>)
    ensures
        pack_bytes(s).len() == (s.len() + 3) / 4,
    decreases s.len(),
{
    if s.len() > 0 {
        let full = s.len() - last_group_count(s.len());
        lemma_pack_length(s.take(full));
    }
}

/// The 2-bit field in slot `i` of a byte, slots counted from the most
/// significant end: slot 0 is the top two bits, slot 3 the bottom two.
pub open spec fn field_at(b: u8, i: int) -> u8
    recommends
        0 <= i < 4,
{
    if i == 0 {
        b / 64
    } else if i == 1 {
        (b / 16) % 4
    } else if i == 2 {
        (b / 4) % 4
    } else {
        b % 4
    }
}

/// The directions held in the first `k` slots of one byte.
pub open spec fn unpack_byte(b: u8, k: nat) -> Seq<Direction>
    recommends
        k <= 4,
{
    Seq::new(k, |i: int| direction_of(field_at(b, i)))
}

/// Whether a last-byte count is consistent with a byte sequence: 0 when
/// there are no bytes, 1 through 4 otherwise.
pub open spec fn valid_count(bytes: Seq<u8>, k: nat) -> bool {
    if bytes.len() == 0 {
        k == 0
    } else {
        1 <= k <= 4
    }
}

/// The directions a byte sequence unpacks to when the final byte holds `k`
/// of them and every earlier byte holds four.
pub open spec fn unpack_bytes(bytes: Seq<u8>, k: nat) -> Seq<Direction>
    decreases bytes.len(),
{
    if bytes.len() == 0 {
        Seq::empty()
    } else {
        unpack_bytes(bytes.drop_last(), 4) + unpack_byte(bytes.last(), k)
    }
}

/// Reading the four 2-bit fields back out of a byte assembled from four
/// 2-bit values recovers exactly those values.
proof fn lemma_field_split(b: u8, c0: u8, c1: u8, c2: u8, c3: u8)
    requires
        c0 < 4,
        c1 < 4,
        c2 < 4,
        c3 < 4,
        b == c0 * 64 + c1 * 16 + c2 * 4 + c3,
    ensures
        field_at(b, 0) == c0,
        field_at(b, 1) == c1,
        field_at(b, 2) == c2,
        field_at(b, 3) == c3,
{
}

/// Unpacking a packed group's byte with the group's own length recovers the
/// group: the central per-byte round trip.
pub proof fn lemma_group_round_trip(g: Seq<Direction>)
    requires
        1 <= g.len() <= 4,
    ensures
        unpack_byte(group_byte(g), g.len()) == g,
{
    crate::direction::lemma_code_bijection();
    lemma_group_value_bound(g);
    let len = g.len() as int;
    let b = group_byte(g);
    let g1 = g.drop_last();
    let g2 = g1.drop_last();
    let g3 = g2.drop_last();
    assert(group_value(g) == group_value(g1) * 4 + code_of(g.last()));
    if len >= 2 {
        assert(group_value(g1) == group_value(g2) * 4 + code_of(g1.last()));
    }
    if len >= 3 {
        assert(group_value(g2) == group_value(g3) * 4 + code_of(g2.last()));
    }
    if len == 1 {
        let c0 = code_of(g[0]);
        assert(group_value(g) == c0);
        assert(b == c0 * 64 + 0 * 16 + 0 * 4 + 0);
        lemma_field_split(b, c0, 0, 0, 0);
    } else if len == 2 {
        let c0 = code_of(g[0]);
        let c1 = code_of(g[1]);
        assert(g1.last() == g[0]);
        assert(group_value(g) == c0 * 4 + c1);
        assert(b == c0 * 64 + c1 * 16 + 0 * 4 + 0);
        lemma_field_split(b, c0, c1, 0, 0);
    } else if len == 3 {
        let c0 = code_of(g[0]);
        let c1 = code_of(g[1]);
        let c2 = code_of(g[2]);
        assert(g2.last() == g[0]);
        assert(g1.last() == g[1]);
        assert(group_value(g) == (c0 * 4 + c1) * 4 + c2);
        assert(b == c0 * 64 + c1 * 16 + c2 * 4 + 0);
        lemma_field_split(b, c0, c1, c2, 0);
    } else {
        let c0 = code_of(g[0]);
        let c1 = code_of(g[1]);
        let c2 = code_of(g[2]);
        let c3 = code_of(g[3]);
        assert(g3.last() == g[0]);
        assert(g2.last() == g[1]);
        assert(g1.last() == g[2]);
        assert(group_value(g) == ((c0 * 4 + c1) * 4 + c2) * 4 + c3);
        assert(b == c0 * 64 + c1 * 16 + c2 * 4 + c3);
        lemma_field_split(b, c0, c1, c2, c3);
    }
    assert forall|i: int| 0 <= i < len implies unpack_byte(b, g.len())[i] == g[i] by {
        assert(field_at(b, i) == code_of(g[i]));
        assert(direction_of(code_of(g[i])) == g[i]);
    }
    assert(unpack_byte(b, g.len()) =~= g);
}

/// Round-trip law: unpacking what packing produced, with the count packing
/// reported, yields the original sequence, and the produced pair always
/// passes unpacking's validation.
pub proof fn lemma_round_trip(s: Seq<Direction>)
    ensures
        valid_count(pack_bytes(s), last_group_count(s.len())),
        unpack_bytes(pack_bytes(s), last_group_count(s.len())) == s,
    decreases s.len(),
{
    if s.len() > 0 {
        let k = last_group_count(s.len());
        let full = s.len() - k;
        let prefix = s.take(full as int);
        let tail = s.skip(full as int);
        lemma_round_trip(prefix);
        assert(full % 4 == 0);
        assert(prefix.len() == full);
        if full > 0 {
            assert(last_group_count(prefix.len()) == 4);
        }
        let p = pack_bytes(s);
        assert(p == pack_bytes(prefix).push(group_byte(tail)));
        assert(p.drop_last() =~= pack_bytes(prefix));
        assert(p.last() == group_byte(tail));
        assert(tail.len() == k);
        lemma_group_round_trip(tail);
        assert(unpack_bytes(p, k) == unpack_bytes(pack_bytes(prefix), 4) + tail);
        assert(unpack_bytes(pack_bytes(prefix), 4) == prefix);
        assert(prefix + tail =~= s);
    }
}

/// Padding law: when the input length is not a multiple of four, the low
/// 2 * (4 - lastGroupCount) bits of the final packed byte are zero, which
/// is to say the byte is a multiple of 4 to the power 4 - lastGroupCount.
pub proof fn lemma_padding(s: Seq<Direction>)
    requires
        s.len() % 4 != 0,
    ensures
        pack_bytes(s).len() > 0,
        pack_bytes(s).last() as int % pad_factor(last_group_count(s.len()) as int) == 0,
{
    let k = last_group_count(s.len());
    let full = s.len() - k;
    let tail = s.skip(full as int);
    assert(pack_bytes(s).last() == group_byte(tail));
    assert(tail.len() == k);
    lemma_group_value_bound(tail);
    let gv = group_value(tail);
    if k == 1 {
        assert((gv * 64) % 64 == 0);
    } else if k == 2 {
        assert((gv * 16) % 16 == 0);
    } else {
        assert(k == 3);
        assert((gv * 4) % 4 == 0);
    }
}

/// Packs a sequence of directions into bytes, four directions per byte at
/// two bits each, the final byte zero-padded in its low-order bits.
///
/// Returns the packed bytes together with how many directions the final byte
/// holds: 0 for an empty input, otherwise the input length modulo 4 with 4
/// standing in for 0.
pub fn pack_values(directions: &[Direction]) -> (r: (Vec<u8>, DirectionsInLastByte))
    ensures
        r.0@ == pack_bytes(directions@),
        r.1 as nat == last_group_count(directions@.len()),
        r.0@.len() == (directions@.len() + 3) / 4,
{
    let n = directions.len();
    let mut packed: Vec<u8> = Vec::new();
    let mut i: usize = 0;
    while i < n
        invariant
            n == directions@.len(),
            i <= n,
            i % 4 == 0 || i == n,
            packed@ == pack_bytes(directions@.take(i as int)),
        decreases n - i,
    {
        let group_len = if n - i < 4 {
            n - i
        } else {
            4
        };
        let ghost group = directions@.subrange(i as int, i + group_len);
        let mut byte: u8 = 0;
        let mut j: usize = 0;
        while j < group_len
            invariant
                n == directions@.len(),
                i + group_len <= n,
                1 <= group_len <= 4,
                j <= group_len,
                group == directions@.subrange(i as int, i + group_len),
                byte as int == group_value(group.take(j as int)),
            decreases group_len - j,
        {
            proof {
                lemma_group_value_bound(group.take(j as int));
                assert(group.take(j as int).len() == j);
            }
            let d = directions[i + j];
            let code = d.encode();
            proof {
                assert(group.take(j + 1).drop_last() =~= group.take(j as int));
                assert(group.take(j + 1).last() == group[j as int]);
                assert(group[j as int] == directions@[i + j]);
            }
            byte = byte * 4 + code;
            j += 1;
        }
        proof {
            assert(group.take(group_len as int) =~= group);
            lemma_group_value_bound(group);
        }
        let byte = if group_len == 1 {
            byte * 64
        } else if group_len == 2 {
            byte * 16
        } else if group_len == 3 {
            byte * 4
        } else {
            byte
        };
        proof {
            let gv = group_value(group);
            if group_len == 1 {
                assert(byte == gv * 64);
            } else if group_len == 2 {
                assert(byte == gv * 16);
            } else if group_len == 3 {
                assert(byte == gv * 4);
            } else {
                assert(byte == gv * 1);
            }
            assert(byte == group_byte(group));
        }
        packed.push(byte);
        proof {
            let done = directions@.take(i + group_len);
            assert(last_group_count((i + group_len) as nat) == group_len);
            assert(done.take(i as int) =~= directions@.take(i as int));
            assert(done.skip(i as int) =~= group);
            assert(packed@ == pack_bytes(done));
        }
        i += group_len;
    }
    proof {
        assert(directions@.take(n as int) =~= directions@);
        lemma_pack_length(directions@);
    }
    let count: DirectionsInLastByte = if n == 0 {
        0
    } else {
        let rem: usize = n % 4;
        if rem == 0 {
            4
        } else {
            rem as u8
        }
    };
    (packed, count)
}

/// Unpacks a byte sequence back into directions: every byte but the last
/// holds four, the last holds `directions_in_last_byte` of them in its
/// high-order bits.
///
/// Fails with [`UnpackError::MalformedInput`] exactly when the count is
/// inconsistent with the bytes: nonzero for an empty buffer, or outside
/// 1 through 4 for a non-empty one. Every 2-bit field names a direction, so
/// [`UnpackError::InvalidSymbolCode`] is kept only as a guard against
/// mis-extracted fields and is proved unreachable here.
pub fn unpack_values(packed: &[u8], directions_in_last_byte: DirectionsInLastByte) -> (r: Result<
    Vec<Direction>,
    UnpackError,
>)
    ensures
        r is Ok <==> valid_count(packed@, directions_in_last_byte as nat),
        r is Ok ==> r->Ok_0@ == unpack_bytes(packed@, directions_in_last_byte as nat),
        r is Err ==> r->Err_0 == UnpackError::MalformedInput,
{
    let n = packed.len();
    if n == 0 {
        if directions_in_last_byte == 0 {
            Ok(Vec::new())
        } else {
            Err(UnpackError::MalformedInput)
        }
    } else if directions_in_last_byte < 1 || directions_in_last_byte > 4 {
        Err(UnpackError::MalformedInput)
    } else {
        let mut out: Vec<Direction> = Vec::new();
        let mut i: usize = 0;
        while i < n
            invariant
                n == packed@.len(),
                1 <= directions_in_last_byte <= 4,
                i <= n,
                i < n ==> out@ == unpack_bytes(packed@.take(i as int), 4),
                i == n ==> out@ == unpack_bytes(packed@, directions_in_last_byte as nat),
            decreases n - i,
        {
            let byte = packed[i];
            let contains: usize = if i == n - 1 {
                directions_in_last_byte as usize
            } else {
                4
            };
            let ghost prefix = out@;
            proof {
                assert(prefix + unpack_byte(byte, 0) =~= prefix);
            }
            let mut j: usize = 0;
            while j < contains
                invariant
                    contains <= 4,
                    j <= contains,
                    out@ == prefix + unpack_byte(byte, j as nat),
                decreases contains - j,
            {
                let code: u8 = if j == 0 {
                    byte / 64
                } else if j == 1 {
                    (byte / 16) % 4
                } else if j == 2 {
                    (byte / 4) % 4
                } else {
                    byte % 4
                };
                proof {
                    assert(code == field_at(byte, j as int));
                    assert(code <= 3);
                }
                match Direction::decode(code) {
                    Some(d) => out.push(d),
                    None => {
                        return Err(UnpackError::InvalidSymbolCode);
                    },
                }
                j += 1;
                proof {
                    assert(unpack_byte(byte, j as nat) =~= unpack_byte(
                        byte,
                        (j - 1) as nat,
                    ).push(direction_of(field_at(byte, j - 1))));
                }
            }
            i += 1;
            proof {
                if i < n {
                    let done = packed@.take(i as int);
                    assert(done.drop_last() =~= packed@.take(i - 1));
                    assert(done.last() == packed@[i - 1]);
                    assert(out@ == unpack_bytes(done, 4));
                } else {
                    assert(packed@.drop_last() =~= packed@.take(i - 1));
                    assert(packed@.last() == packed@[i - 1]);
                    assert(out@ == unpack_bytes(packed@, directions_in_last_byte as nat));
                }
            }
        }
        Ok(out)
    }
}

} // verus!
