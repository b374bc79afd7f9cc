//! Wire codec for chat messages.
//!
//! A message travels as a compact binary record: a three-element array
//! holding the content text, the nickname text and the timestamp, in that
//! order. Texts are length-prefixed UTF-8; integers use the shortest of
//! the available fixed-width forms. The encoder always emits this shortest
//! (canonical) form, and the decoder accepts exactly the canonical
//! encodings, so decoding inverts encoding.
use vstd::prelude::*;
use vstd::utf8::{encode_utf8, decode_utf8, valid_utf8};
use crate::message::{ChatMessage, ChatMessageModel};

verus! {

/// 256 to the power `n`: the number of values `n` bytes can hold.
pub closed spec fn pow256(n: nat) -> nat
    decreases n,
{
    if n == 0 {
        1
    } else {
        256 * pow256((n - 1) as nat)
    }
}

/// The `n`-byte big-endian encoding of `v` (low `n` bytes of `v`).
pub open spec fn be_bytes(v: nat, n: nat) -> Seq<u8>
    decreases n,
{
    if n == 0 {
        Seq::empty()
    } else {
        be_bytes(v / 256, (n - 1) as nat) + seq![(v % 256) as u8]
    }
}

/// The value a big-endian byte sequence stands for.
pub open spec fn be_val(s: Seq<u8>) -> nat
    decreases s.len(),
{
    if s.len() == 0 {
        0
    } else {
        be_val(s.drop_last()) * 256 + s.last() as nat
    }
}

/// Header of a wire text of `len` payload bytes: the shortest of the four
/// length forms.
pub open spec fn str_header(len: nat) -> Seq<u8> {
    if len < 32 {
        seq![(0xa0 + len) as u8]
    } else if len < 256 {
        seq![0xd9u8, len as u8]
    } else if len < 65536 {
        seq![0xdau8] + be_bytes(len, 2)
    } else {
        seq![0xdbu8] + be_bytes(len, 4)
    }
}

/// A length-prefixed wire text with payload bytes `b`.
pub open spec fn str_enc(b: Seq<u8>) -> Seq<u8> {
    str_header(b.len()) + b
}

/// The shortest wire form of the signed integer `v`.
pub open spec fn int_enc(v: int) -> Seq<u8> {
    if 0 <= v < 128 {
        seq![v as u8]
    } else if -32 <= v < 0 {
        seq![(v + 256) as u8]
    } else if -128 <= v < -32 {
        seq![0xd0u8, (v + 256) as u8]
    } else if -32768 <= v < -128 {
        seq![0xd1u8] + be_bytes((v + 65536) as nat, 2)
    } else if -0x8000_0000 <= v < -32768 {
        seq![0xd2u8] + be_bytes((v + 0x1_0000_0000) as nat, 4)
    } else if v < -0x8000_0000 {
        seq![0xd3u8] + be_bytes((v + 0x1_0000_0000_0000_0000) as nat, 8)
    } else if v < 256 {
        seq![0xccu8, v as u8]
    } else if v < 65536 {
        seq![0xcdu8] + be_bytes(v as nat, 2)
    } else if v < 0x1_0000_0000 {
        seq![0xceu8] + be_bytes(v as nat, 4)
    } else {
        seq![0xcfu8] + be_bytes(v as nat, 8)
    }
}

/// The complete wire encoding of a chat message: the three-element array
/// marker, the two texts, then the timestamp.
pub open spec fn spec_encode(m: ChatMessageModel) -> Seq<u8> {
    seq![0x93u8] + str_enc(encode_utf8(m.content)) + str_enc(encode_utf8(m.nickname)) + int_enc(
        m.timestamp,
    )
}

/// Appends the `n`-byte big-endian form of `v`.
fn push_be(out: &mut Vec<u8>, v: u64, n: usize)
    ensures
        final(out)@ == old(out)@ + be_bytes(v as nat, n as nat),
    decreases n,
{
    if n == 0 {
        proof {
            assert(out@ =~= out@ + be_bytes(v as nat, 0));
        }
    } else {
        push_be(out, v / 256, n - 1);
        out.push((v % 256) as u8);
        proof {
            assert(be_bytes(v as nat, n as nat) == be_bytes(v as nat / 256, (n - 1) as nat)
                + seq![(v as nat % 256) as u8]);
            assert(out@ =~= old(out)@ + be_bytes(v as nat, n as nat));
        }
    }
}

/// Appends all of `b`.
fn append_bytes(out: &mut Vec<u8>, b: &[u8])
    ensures
        final(out)@ == old(out)@ + b@,
{
    let mut k: usize = 0;
    while k < b.len()
        invariant
            k <= b@.len(),
            out@ == old(out)@ + b@.subrange(0, k as int),
        decreases b@.len() - k,
    {
        out.push(b[k]);
        proof {
            assert(old(out)@ + b@.subrange(0, k as int) + seq![b@[k as int]] =~= old(out)@
                + b@.subrange(0, k as int + 1));
        }
        k = k + 1;
    }
    proof {
        assert(b@.subrange(0, b@.len() as int) =~= b@);
    }
}

/// Appends the wire form of the text `s`.
fn push_str(out: &mut Vec<u8>, s: &str)
    requires
        encode_utf8(s@).len() < 0x1_0000_0000,
    ensures
        final(out)@ == old(out)@ + str_enc(encode_utf8(s@)),
{
    let b: &[u8] = s.as_bytes();
    let len: u64 = b.len() as u64;
    if len < 32 {
        out.push(0xa0 + len as u8);
    } else if len < 256 {
        out.push(0xd9);
        out.push(len as u8);
    } else if len < 65536 {
        out.push(0xda);
        push_be(out, len, 2);
    } else {
        out.push(0xdb);
        push_be(out, len, 4);
    }
    append_bytes(out, b);
    proof {
        assert(out@ =~= old(out)@ + str_enc(encode_utf8(s@)));
    }
}

/// Appends the shortest wire form of `v`.
fn push_int(out: &mut Vec<u8>, v: i64)
    ensures
        final(out)@ == old(out)@ + int_enc(v as int),
{
    if 0 <= v && v < 128 {
        out.push(v as u8);
    } else if -32 <= v && v < 0 {
        out.push((v + 256) as u8);
    } else if -128 <= v && v < -32 {
        out.push(0xd0);
        out.push((v + 256) as u8);
    } else if -32768 <= v && v < -128 {
        out.push(0xd1);
        push_be(out, (v + 65536) as u64, 2);
    } else if -0x8000_0000 <= v && v < -32768 {
        out.push(0xd2);
        push_be(out, (v + 0x1_0000_0000) as u64, 4);
    } else if v < -0x8000_0000 {
        out.push(0xd3);
        let u: u64 = ((v as i128) + 0x1_0000_0000_0000_0000i128) as u64;
        push_be(out, u, 8);
    } else if v < 256 {
        out.push(0xcc);
        out.push(v as u8);
    } else if v < 65536 {
        out.push(0xcd);
        push_be(out, v as u64, 2);
    } else if v < 0x1_0000_0000 {
        out.push(0xce);
        push_be(out, v as u64, 4);
    } else {
        out.push(0xcf);
        push_be(out, v as u64, 8);
    }
    proof {
        assert(out@ =~= old(out)@ + int_enc(v as int));
    }
}

/// Encodes a chat message for the wire. The result is exactly the
/// canonical encoding of the message's three fields.
pub fn encode_message(m: &ChatMessage) -> (r: Vec<u8>)
    requires
        m@.wf(),
    ensures
        r@ == spec_encode(m@),
{
    let mut out: Vec<u8> = Vec::new();
    out.push(0x93);
    push_str(&mut out, m.content.as_str());
    push_str(&mut out, m.nickname.as_str());
    push_int(&mut out, m.timestamp);
    proof {
        assert(out@ =~= spec_encode(m@));
    }
    out
}

/// One wire text parsed at position `i` of `b`: the payload bytes and the
/// position after them. Accepts only the shortest header for the payload's
/// length, so a parsed text re-encodes to the bytes it was read from.
pub open spec fn parse_str_at(b: Seq<u8>, i: int) -> Option<(Seq<u8>, int)> {
    if !(0 <= i < b.len()) {
        Option::None
    } else {
        let h = b[i];
        if 0xa0 <= h && h <= 0xbf {
            let l: int = h - 0xa0;
            if i + 1 + l <= b.len() {
                Option::Some((b.subrange(i + 1, i + 1 + l), i + 1 + l))
            } else {
                Option::None
            }
        } else if h == 0xd9 {
            if i + 2 <= b.len() {
                let l: int = b[i + 1] as int;
                if 32 <= l && i + 2 + l <= b.len() {
                    Option::Some((b.subrange(i + 2, i + 2 + l), i + 2 + l))
                } else {
                    Option::None
                }
            } else {
                Option::None
            }
        } else if h == 0xda {
            if i + 3 <= b.len() {
                let l: int = be_val(b.subrange(i + 1, i + 3)) as int;
                if 256 <= l && i + 3 + l <= b.len() {
                    Option::Some((b.subrange(i + 3, i + 3 + l), i + 3 + l))
                } else {
                    Option::None
                }
            } else {
                Option::None
            }
        } else if h == 0xdb {
            if i + 5 <= b.len() {
                let l: int = be_val(b.subrange(i + 1, i + 5)) as int;
                if 65536 <= l && i + 5 + l <= b.len() {
                    Option::Some((b.subrange(i + 5, i + 5 + l), i + 5 + l))
                } else {
                    Option::None
                }
            } else {
                Option::None
            }
        } else {
            Option::None
        }
    }
}

/// One wire integer parsed at position `i` of `b`: the value and the
/// position after it. Accepts only the shortest form of each value, and
/// only values a signed 64-bit integer can hold.
pub open spec fn parse_int_at(b: Seq<u8>, i: int) -> Option<(int, int)> {
    if !(0 <= i < b.len()) {
        Option::None
    } else {
        let h = b[i];
        if h < 0x80 {
            Option::Some((h as int, i + 1))
        } else if h >= 0xe0 {
            Option::Some((h - 256, i + 1))
        } else if h == 0xcc {
            if i + 2 <= b.len() {
                let u: int = b[i + 1] as int;
                if 128 <= u {
                    Option::Some((u, i + 2))
                } else {
                    Option::None
                }
            } else {
                Option::None
            }
        } else if h == 0xcd {
            if i + 3 <= b.len() {
                let u: int = be_val(b.subrange(i + 1, i + 3)) as int;
                if 256 <= u {
                    Option::Some((u, i + 3))
                } else {
                    Option::None
                }
            } else {
                Option::None
            }
        } else if h == 0xce {
            if i + 5 <= b.len() {
                let u: int = be_val(b.subrange(i + 1, i + 5)) as int;
                if 65536 <= u {
                    Option::Some((u, i + 5))
                } else {
                    Option::None
                }
            } else {
                Option::None
            }
        } else if h == 0xcf {
            if i + 9 <= b.len() {
                let u: int = be_val(b.subrange(i + 1, i + 9)) as int;
                if 0x1_0000_0000 <= u <= 0x7fff_ffff_ffff_ffff {
                    Option::Some((u, i + 9))
                } else {
                    Option::None
                }
            } else {
                Option::None
            }
        } else if h == 0xd0 {
            if i + 2 <= b.len() {
                let u: int = b[i + 1] as int;
                if 128 <= u < 224 {
                    Option::Some((u - 256, i + 2))
                } else {
                    Option::None
                }
            } else {
                Option::None
            }
        } else if h == 0xd1 {
            if i + 3 <= b.len() {
                let u: int = be_val(b.subrange(i + 1, i + 3)) as int;
                if 32768 <= u < 65408 {
                    Option::Some((u - 65536, i + 3))
                } else {
                    Option::None
                }
            } else {
                Option::None
            }
        } else if h == 0xd2 {
            if i + 5 <= b.len() {
                let u: int = be_val(b.subrange(i + 1, i + 5)) as int;
                if 0x8000_0000 <= u < 0xffff_8000 {
                    Option::Some((u - 0x1_0000_0000, i + 5))
                } else {
                    Option::None
                }
            } else {
                Option::None
            }
        } else if h == 0xd3 {
            if i + 9 <= b.len() {
                let u: int = be_val(b.subrange(i + 1, i + 9)) as int;
                if 0x8000_0000_0000_0000 <= u < 0xffff_ffff_8000_0000 {
                    Option::Some((u - 0x1_0000_0000_0000_0000, i + 9))
                } else {
                    Option::None
                }
            } else {
                Option::None
            }
        } else {
            Option::None
        }
    }
}

/// pow256 grows with its argument.
proof fn lemma_pow256_mono(a: nat, b: nat)
    requires
        a <= b,
    ensures
        pow256(a) <= pow256(b),
    decreases b,
{
    if a < b {
        lemma_pow256_mono(a, (b - 1) as nat);
    }
}

/// The first nine powers of 256, written out.
proof fn lemma_pow256_values()
    ensures
        pow256(0) == 1,
        pow256(1) == 256,
        pow256(2) == 0x1_0000,
        pow256(3) == 0x100_0000,
        pow256(4) == 0x1_0000_0000,
        pow256(5) == 0x100_0000_0000,
        pow256(6) == 0x1_0000_0000_0000,
        pow256(7) == 0x100_0000_0000_0000,
        pow256(8) == 0x1_0000_0000_0000_0000,
{
    assert(pow256(0) == 1);
    assert(pow256(1) == 256);
    assert(pow256(2) == 0x1_0000);
    assert(pow256(3) == 0x100_0000);
    assert(pow256(4) == 0x1_0000_0000);
    assert(pow256(5) == 0x100_0000_0000);
    assert(pow256(6) == 0x1_0000_0000_0000);
    assert(pow256(7) == 0x100_0000_0000_0000);
    assert(pow256(8) == 0x1_0000_0000_0000_0000);
}

/// A big-endian sequence of `n` bytes stands for a value below 256^n.
proof fn lemma_be_val_bound(s: Seq<u8>)
    ensures
        be_val(s) < pow256(s.len()),
    decreases s.len(),
{
    if s.len() > 0 {
        lemma_be_val_bound(s.drop_last());
    }
}

/// Reading back the `n`-byte big-endian form of a value below 256^n gives
/// the value, and the form has `n` bytes.
proof fn lemma_be_roundtrip(v: nat, n: nat)
    requires
        v < pow256(n),
    ensures
        be_bytes(v, n).len() == n,
        be_val(be_bytes(v, n)) == v,
    decreases n,
{
    if n > 0 {
        assert(v / 256 < pow256((n - 1) as nat)) by (nonlinear_arith)
            requires
                v < 256 * pow256((n - 1) as nat),
        ;
        lemma_be_roundtrip(v / 256, (n - 1) as nat);
        let s = be_bytes(v, n);
        assert(s.drop_last() =~= be_bytes(v / 256, (n - 1) as nat));
        assert(s.last() == (v % 256) as u8);
    }
}

/// Reads the value of the `n` bytes at `i` as a big-endian integer.
fn read_be(b: &[u8], i: usize, n: usize) -> (r: u64)
    requires
        n <= 8,
        i + n <= b@.len(),
    ensures
        r as nat == be_val(b@.subrange(i as int, (i + n) as int)),
        (r as nat) < pow256(n as nat),
{
    let blen: usize = b.len();
    let mut acc: u64 = 0;
    let mut k: usize = 0;
    proof {
        assert(b@.subrange(i as int, i as int) =~= Seq::<u8>::empty());
    }
    while k < n
        invariant
            k <= n,
            n <= 8,
            i + n <= blen,
            blen == b@.len(),
            acc as nat == be_val(b@.subrange(i as int, (i + k) as int)),
            (acc as nat) < pow256(k as nat),
        decreases n - k,
    {
        proof {
            lemma_pow256_mono(k as nat, 7);
            lemma_pow256_values();
        }
        acc = acc * 256 + (b[i + k] as u64);
        proof {
            let s1 = b@.subrange(i as int, (i + k + 1) as int);
            assert(s1.drop_last() =~= b@.subrange(i as int, (i + k) as int));
            assert(s1.last() == b@[(i + k) as int]);
        }
        k = k + 1;
    }
    proof {
        lemma_pow256_mono(n as nat, 8);
        lemma_pow256_values();
    }
    acc
}

/// Copies the `l` bytes at `i` out of `b`.
fn copy_range(b: &[u8], i: usize, l: usize) -> (r: Vec<u8>)
    requires
        i + l <= b@.len(),
    ensures
        r@ == b@.subrange(i as int, (i + l) as int),
{
    let blen: usize = b.len();
    let mut r: Vec<u8> = Vec::new();
    let mut k: usize = 0;
    proof {
        assert(b@.subrange(i as int, i as int) =~= Seq::<u8>::empty());
    }
    while k < l
        invariant
            k <= l,
            i + l <= blen,
            blen == b@.len(),
            r@ == b@.subrange(i as int, (i + k) as int),
        decreases l - k,
    {
        r.push(b[i + k]);
        proof {
            let s1 = b@.subrange(i as int, (i + k + 1) as int);
            assert(s1.drop_last() =~= b@.subrange(i as int, (i + k) as int));
            assert(r@ =~= s1);
        }
        k = k + 1;
    }
    r
}

/// Parses one wire text at position `i`, as `parse_str_at` reads it.
fn parse_str(b: &[u8], i: usize) -> (r: Option<(Vec<u8>, usize)>)
    requires
        i <= b@.len(),
    ensures
        match r {
            Option::Some(p) => {
                &&& parse_str_at(b@, i as int) == Option::Some((p.0@, p.1 as int))
                &&& i < p.1 <= b@.len()
                &&& p.0@.len() < 0x1_0000_0000
            },
            Option::None => parse_str_at(b@, i as int) is None,
        },
{
    let n = b.len();
    if i >= n {
        return Option::None;
    }
    let h = b[i];
    if 0xa0 <= h && h <= 0xbf {
        let l = (h - 0xa0) as usize;
        if l <= n - i - 1 {
            let s = copy_range(b, i + 1, l);
            Option::Some((s, i + 1 + l))
        } else {
            Option::None
        }
    } else if h == 0xd9 {
        if n - i >= 2 {
            let l = b[i + 1] as usize;
            if 32 <= l && l <= n - i - 2 {
                let s = copy_range(b, i + 2, l);
                Option::Some((s, i + 2 + l))
            } else {
                Option::None
            }
        } else {
            Option::None
        }
    } else if h == 0xda {
        if n - i >= 3 {
            let l64 = read_be(b, i + 1, 2);
            proof {
                lemma_pow256_values();
                lemma_pow256_mono(2, 4);
            }
            if 256 <= l64 && l64 <= (n - i - 3) as u64 {
                let l = l64 as usize;
                let s = copy_range(b, i + 3, l);
                Option::Some((s, i + 3 + l))
            } else {
                Option::None
            }
        } else {
            Option::None
        }
    } else if h == 0xdb {
        if n - i >= 5 {
            let l64 = read_be(b, i + 1, 4);
            proof {
                lemma_pow256_values();
            }
            if 65536 <= l64 && l64 <= (n - i - 5) as u64 {
                let l = l64 as usize;
                let s = copy_range(b, i + 5, l);
                Option::Some((s, i + 5 + l))
            } else {
                Option::None
            }
        } else {
            Option::None
        }
    } else {
        Option::None
    }
}

/// Parses one wire integer at position `i`, as `parse_int_at` reads it.
fn parse_int(b: &[u8], i: usize) -> (r: Option<(i64, usize)>)
    requires
        i <= b@.len(),
    ensures
        match r {
            Option::Some(p) => {
                &&& parse_int_at(b@, i as int) == Option::Some((p.0 as int, p.1 as int))
                &&& i < p.1 <= b@.len()
            },
            Option::None => parse_int_at(b@, i as int) is None,
        },
{
    let n = b.len();
    if i >= n {
        return Option::None;
    }
    let h = b[i];
    if h < 0x80 {
        Option::Some((h as i64, i + 1))
    } else if h >= 0xe0 {
        Option::Some((h as i64 - 256, i + 1))
    } else if h == 0xcc {
        if n - i >= 2 {
            let u = b[i + 1];
            if 128 <= u {
                Option::Some((u as i64, i + 2))
            } else {
                Option::None
            }
        } else {
            Option::None
        }
    } else if h == 0xcd {
        if n - i >= 3 {
            let u = read_be(b, i + 1, 2);
            proof {
                lemma_pow256_values();
            }
            if 256 <= u {
                Option::Some((u as i64, i + 3))
            } else {
                Option::None
            }
        } else {
            Option::None
        }
    } else if h == 0xce {
        if n - i >= 5 {
            let u = read_be(b, i + 1, 4);
            proof {
                lemma_pow256_values();
            }
            if 65536 <= u {
                Option::Some((u as i64, i + 5))
            } else {
                Option::None
            }
        } else {
            Option::None
        }
    } else if h == 0xcf {
        if n - i >= 9 {
            let u = read_be(b, i + 1, 8);
            if 0x1_0000_0000 <= u && u <= 0x7fff_ffff_ffff_ffff {
                Option::Some((u as i64, i + 9))
            } else {
                Option::None
            }
        } else {
            Option::None
        }
    } else if h == 0xd0 {
        if n - i >= 2 {
            let u = b[i + 1];
            if 128 <= u && u < 224 {
                Option::Some((u as i64 - 256, i + 2))
            } else {
                Option::None
            }
        } else {
            Option::None
        }
    } else if h == 0xd1 {
        if n - i >= 3 {
            let u = read_be(b, i + 1, 2);
            if 32768 <= u && u < 65408 {
                Option::Some((u as i64 - 65536, i + 3))
            } else {
                Option::None
            }
        } else {
            Option::None
        }
    } else if h == 0xd2 {
        if n - i >= 5 {
            let u = read_be(b, i + 1, 4);
            if 0x8000_0000 <= u && u < 0xffff_8000 {
                Option::Some((u as i64 - 0x1_0000_0000, i + 5))
            } else {
                Option::None
            }
        } else {
            Option::None
        }
    } else if h == 0xd3 {
        if n - i >= 9 {
            let u = read_be(b, i + 1, 8);
            if 0x8000_0000_0000_0000 <= u && u < 0xffff_ffff_8000_0000 {
                let ts = ((u as i128) - 0x1_0000_0000_0000_0000i128) as i64;
                Option::Some((ts, i + 9))
            } else {
                Option::None
            }
        } else {
            Option::None
        }
    } else {
        Option::None
    }
}

/// Relies on `String::from_utf8`: returns the text whose UTF-8 encoding is
/// exactly the given bytes, and fails exactly on bytes that are not valid
/// UTF-8.
#[verifier::external_body]
fn string_from_utf8(v: Vec<u8>) -> (r: Option<String>)
    ensures
        r matches Option::Some(s) ==> encode_utf8(s@) == v@,
        r is Some <==> valid_utf8(v@),
{
    String::from_utf8(v).ok()
}

/// Decodes the bytes of one wire record back into a chat message:
/// the result is exactly what `spec_decode` reads in the bytes, so a
/// message always comes back from its own encoding, and bytes that encode
/// no message are rejected.
pub fn decode_message(b: &[u8]) -> (r: Option<ChatMessage>)
    ensures
        match r {
            Option::Some(m) => spec_decode(b@) == Option::Some(m@) && m@.wf(),
            Option::None => spec_decode(b@) is None,
        },
{
    broadcast use vstd::utf8::encode_utf8_decode_utf8;
    broadcast use vstd::utf8::encode_utf8_valid_utf8;

    if b.len() < 1 {
        return Option::None;
    }
    if b[0] != 0x93 {
        return Option::None;
    }
    let (cb, i1) = match parse_str(b, 1) {
        Option::Some(p) => p,
        Option::None => {
            return Option::None;
        },
    };
    let content = match string_from_utf8(cb) {
        Option::Some(s) => s,
        Option::None => {
            return Option::None;
        },
    };
    let (nb, i2) = match parse_str(b, i1) {
        Option::Some(p) => p,
        Option::None => {
            return Option::None;
        },
    };
    let nickname = match string_from_utf8(nb) {
        Option::Some(s) => s,
        Option::None => {
            return Option::None;
        },
    };
    let (ts, i3) = match parse_int(b, i2) {
        Option::Some(p) => p,
        Option::None => {
            return Option::None;
        },
    };
    if i3 != b.len() {
        return Option::None;
    }
    let m = ChatMessage { content, nickname, timestamp: ts };
    proof {
        assert(spec_decode(b@) == Option::Some(m@));
    }
    Option::Some(m)
}

/// The message a byte sequence stands for: the three-element array marker,
/// two valid UTF-8 wire texts and a wire integer, with nothing after them.
/// `None` when the bytes are not the canonical encoding of any message.
pub open spec fn spec_decode(b: Seq<u8>) -> Option<ChatMessageModel> {
    if b.len() < 1 || b[0] != 0x93 {
        Option::None
    } else {
        match parse_str_at(b, 1) {
            Option::None => Option::None,
            Option::Some((cb, i1)) => if !valid_utf8(cb) {
                Option::None
            } else {
                match parse_str_at(b, i1) {
                    Option::None => Option::None,
                    Option::Some((nb, i2)) => if !valid_utf8(nb) {
                        Option::None
                    } else {
                        match parse_int_at(b, i2) {
                            Option::None => Option::None,
                            Option::Some((ts, i3)) => if i3 == b.len() {
                                Option::Some(
                                    ChatMessageModel {
                                        content: decode_utf8(cb),
                                        nickname: decode_utf8(nb),
                                        timestamp: ts,
                                    },
                                )
                            } else {
                                Option::None
                            },
                        }
                    },
                }
            },
        }
    }
}

/// One byte of an embedded record, read through the enclosing bytes.
proof fn lemma_byte_at(b: Seq<u8>, i: int, e: Seq<u8>, q: int)
    requires
        0 <= i,
        i + e.len() <= b.len(),
        b.subrange(i, i + e.len()) == e,
        0 <= q < e.len(),
    ensures
        b[i + q] == e[q],
{
    assert(b.subrange(i, i + e.len() as int)[q] == b[i + q]);
}

/// A stretch of an embedded record, read through the enclosing bytes.
proof fn lemma_slice_eq(b: Seq<u8>, i: int, e: Seq<u8>, off: int, t: Seq<u8>)
    requires
        0 <= i,
        i + e.len() <= b.len(),
        b.subrange(i, i + e.len()) == e,
        0 <= off,
        off + t.len() <= e.len(),
        e.subrange(off, off + t.len()) == t,
    ensures
        b.subrange(i + off, i + off + t.len()) == t,
{
    let sub = b.subrange(i, i + e.len() as int);
    assert forall|k: int| 0 <= k < t.len() implies b.subrange(
        i + off,
        i + off + t.len() as int,
    )[k] == t[k] by {
        assert(b.subrange(i + off, i + off + t.len() as int)[k] == b[i + off + k]);
        assert(sub[off + k] == b[i + off + k]);
        assert(e.subrange(off, off + t.len() as int)[k] == e[off + k]);
    }
    assert(b.subrange(i + off, i + off + t.len() as int) =~= t);
}

/// Parsing a wire text out of the bytes its encoder wrote gives back the
/// payload and stops right after it.
proof fn lemma_parse_str_enc(b: Seq<u8>, i: int, s: Seq<u8>)
    requires
        s.len() < 0x1_0000_0000,
        0 <= i,
        i + str_enc(s).len() <= b.len(),
        b.subrange(i, i + str_enc(s).len()) == str_enc(s),
    ensures
        parse_str_at(b, i) == Option::Some((s, i + str_enc(s).len())),
{
    lemma_pow256_values();
    let e = str_enc(s);
    let ln = s.len() as int;
    lemma_byte_at(b, i, e, 0);
    if s.len() < 32 {
        assert(b[i] == 0xa0 + s.len());
        assert(e.subrange(1, 1 + ln) =~= s);
        lemma_slice_eq(b, i, e, 1, s);
    } else if s.len() < 256 {
        assert(b[i] == 0xd9);
        lemma_byte_at(b, i, e, 1);
        assert(b[i + 1] == s.len() as u8);
        assert(e.subrange(2, 2 + ln) =~= s);
        lemma_slice_eq(b, i, e, 2, s);
    } else if s.len() < 65536 {
        lemma_be_roundtrip(s.len(), 2);
        assert(b[i] == 0xda);
        assert(e.subrange(1, 3) =~= be_bytes(s.len(), 2));
        lemma_slice_eq(b, i, e, 1, be_bytes(s.len(), 2));
        assert(be_val(b.subrange(i + 1, i + 3)) == s.len());
        assert(e.subrange(3, 3 + ln) =~= s);
        lemma_slice_eq(b, i, e, 3, s);
    } else {
        lemma_be_roundtrip(s.len(), 4);
        assert(b[i] == 0xdb);
        assert(e.subrange(1, 5) =~= be_bytes(s.len(), 4));
        lemma_slice_eq(b, i, e, 1, be_bytes(s.len(), 4));
        assert(be_val(b.subrange(i + 1, i + 5)) == s.len());
        assert(e.subrange(5, 5 + ln) =~= s);
        lemma_slice_eq(b, i, e, 5, s);
    }
}

/// Parsing a wire integer out of the bytes its encoder wrote gives back
/// the value and stops right after it.
proof fn lemma_parse_int_enc(b: Seq<u8>, i: int, v: int)
    requires
        i64::MIN <= v <= i64::MAX,
        0 <= i,
        i + int_enc(v).len() <= b.len(),
        b.subrange(i, i + int_enc(v).len()) == int_enc(v),
    ensures
        parse_int_at(b, i) == Option::Some((v, i + int_enc(v).len())),
{
    lemma_pow256_values();
    let e = int_enc(v);
    lemma_byte_at(b, i, e, 0);
    if 0 <= v < 128 {
        assert(b[i] == v as u8);
    } else if -32 <= v < 0 {
        assert(b[i] == (v + 256) as u8);
    } else if -128 <= v < -32 {
        assert(b[i] == 0xd0);
        lemma_byte_at(b, i, e, 1);
        assert(b[i + 1] == (v + 256) as u8);
    } else if -32768 <= v < -128 {
        lemma_be_roundtrip((v + 65536) as nat, 2);
        assert(b[i] == 0xd1);
        assert(e.subrange(1, 3) =~= be_bytes((v + 65536) as nat, 2));
        lemma_slice_eq(b, i, e, 1, be_bytes((v + 65536) as nat, 2));
        assert(be_val(b.subrange(i + 1, i + 3)) == v + 65536);
    } else if -0x8000_0000 <= v < -32768 {
        lemma_be_roundtrip((v + 0x1_0000_0000) as nat, 4);
        assert(b[i] == 0xd2);
        assert(e.subrange(1, 5) =~= be_bytes((v + 0x1_0000_0000) as nat, 4));
        lemma_slice_eq(b, i, e, 1, be_bytes((v + 0x1_0000_0000) as nat, 4));
        assert(be_val(b.subrange(i + 1, i + 5)) == v + 0x1_0000_0000);
    } else if v < -0x8000_0000 {
        lemma_be_roundtrip((v + 0x1_0000_0000_0000_0000) as nat, 8);
        assert(b[i] == 0xd3);
        assert(e.subrange(1, 9) =~= be_bytes((v + 0x1_0000_0000_0000_0000) as nat, 8));
        lemma_slice_eq(b, i, e, 1, be_bytes((v + 0x1_0000_0000_0000_0000) as nat, 8));
        assert(be_val(b.subrange(i + 1, i + 9)) == v + 0x1_0000_0000_0000_0000);
    } else if v < 256 {
        assert(b[i] == 0xcc);
        lemma_byte_at(b, i, e, 1);
        assert(b[i + 1] == v as u8);
    } else if v < 65536 {
        lemma_be_roundtrip(v as nat, 2);
        assert(b[i] == 0xcd);
        assert(e.subrange(1, 3) =~= be_bytes(v as nat, 2));
        lemma_slice_eq(b, i, e, 1, be_bytes(v as nat, 2));
        assert(be_val(b.subrange(i + 1, i + 3)) == v);
    } else if v < 0x1_0000_0000 {
        lemma_be_roundtrip(v as nat, 4);
        assert(b[i] == 0xce);
        assert(e.subrange(1, 5) =~= be_bytes(v as nat, 4));
        lemma_slice_eq(b, i, e, 1, be_bytes(v as nat, 4));
        assert(be_val(b.subrange(i + 1, i + 5)) == v);
    } else {
        lemma_be_roundtrip(v as nat, 8);
        assert(b[i] == 0xcf);
        assert(e.subrange(1, 9) =~= be_bytes(v as nat, 8));
        lemma_slice_eq(b, i, e, 1, be_bytes(v as nat, 8));
        assert(be_val(b.subrange(i + 1, i + 9)) == v);
    }
}

/// A big-endian byte sequence is the encoding of the value it stands for.
proof fn lemma_be_bytes_of_val(s: Seq<u8>)
    ensures
        be_bytes(be_val(s), s.len()) == s,
    decreases s.len(),
{
    if s.len() > 0 {
        lemma_be_bytes_of_val(s.drop_last());
        assert(be_bytes(be_val(s), s.len()) =~= s);
    } else {
        assert(be_bytes(be_val(s), s.len()) =~= s);
    }
}

/// A parsed wire text sits in the bytes exactly as its encoder would have
/// written it: the bytes consumed are the canonical encoding of the
/// payload.
proof fn lemma_parse_str_sound(b: Seq<u8>, i: int, s: Seq<u8>, j: int)
    requires
        parse_str_at(b, i) == Option::Some((s, j)),
    ensures
        s.len() < 0x1_0000_0000,
        j == i + str_enc(s).len(),
        b.subrange(i, j) == str_enc(s),
{
    lemma_pow256_values();
    let h = b[i];
    if 0xa0 <= h && h <= 0xbf {
        assert(b.subrange(i, j) =~= str_enc(s));
    } else if h == 0xd9 {
        assert(b.subrange(i, j) =~= str_enc(s));
    } else if h == 0xda {
        lemma_be_val_bound(b.subrange(i + 1, i + 3));
        lemma_be_bytes_of_val(b.subrange(i + 1, i + 3));
        assert(b.subrange(i, j) =~= str_enc(s));
    } else {
        lemma_be_val_bound(b.subrange(i + 1, i + 5));
        lemma_be_bytes_of_val(b.subrange(i + 1, i + 5));
        assert(b.subrange(i, j) =~= str_enc(s));
    }
}

/// A parsed wire integer sits in the bytes exactly as its encoder would
/// have written it: the bytes consumed are the shortest encoding of the
/// value.
proof fn lemma_parse_int_sound(b: Seq<u8>, i: int, v: int, j: int)
    requires
        parse_int_at(b, i) == Option::Some((v, j)),
    ensures
        i64::MIN <= v <= i64::MAX,
        j == i + int_enc(v).len(),
        b.subrange(i, j) == int_enc(v),
{
    lemma_pow256_values();
    let h = b[i];
    if h < 0x80 {
        assert(b.subrange(i, j) =~= int_enc(v));
    } else if h >= 0xe0 {
        assert(b.subrange(i, j) =~= int_enc(v));
    } else if h == 0xcc {
        assert(b.subrange(i, j) =~= int_enc(v));
    } else if h == 0xcd {
        lemma_be_val_bound(b.subrange(i + 1, i + 3));
        lemma_be_bytes_of_val(b.subrange(i + 1, i + 3));
        assert(b.subrange(i, j) =~= int_enc(v));
    } else if h == 0xce {
        lemma_be_val_bound(b.subrange(i + 1, i + 5));
        lemma_be_bytes_of_val(b.subrange(i + 1, i + 5));
        assert(b.subrange(i, j) =~= int_enc(v));
    } else if h == 0xcf {
        lemma_be_val_bound(b.subrange(i + 1, i + 9));
        lemma_be_bytes_of_val(b.subrange(i + 1, i + 9));
        assert(b.subrange(i, j) =~= int_enc(v));
    } else if h == 0xd0 {
        assert(b.subrange(i, j) =~= int_enc(v));
    } else if h == 0xd1 {
        lemma_be_val_bound(b.subrange(i + 1, i + 3));
        lemma_be_bytes_of_val(b.subrange(i + 1, i + 3));
        assert(b.subrange(i, j) =~= int_enc(v));
    } else if h == 0xd2 {
        lemma_be_val_bound(b.subrange(i + 1, i + 5));
        lemma_be_bytes_of_val(b.subrange(i + 1, i + 5));
        assert(b.subrange(i, j) =~= int_enc(v));
    } else {
        lemma_be_val_bound(b.subrange(i + 1, i + 9));
        lemma_be_bytes_of_val(b.subrange(i + 1, i + 9));
        assert(b.subrange(i, j) =~= int_enc(v));
    }
}

/// Canonicity: the decoder accepts exactly the canonical encodings. Bytes
/// that decode to a message are that message's own encoding, so every
/// accepted payload re-encodes to the very bytes it arrived as.
pub proof fn lemma_decode_encode(b: Seq<u8>, m: ChatMessageModel)
    requires
        spec_decode(b) == Option::Some(m),
    ensures
        m.wf(),
        spec_encode(m) == b,
{
    broadcast use vstd::utf8::decode_utf8_encode_utf8;

    let (cb, i1) = parse_str_at(b, 1)->Some_0;
    lemma_parse_str_sound(b, 1, cb, i1);
    let (nb, i2) = parse_str_at(b, i1)->Some_0;
    lemma_parse_str_sound(b, i1, nb, i2);
    let (ts, i3) = parse_int_at(b, i2)->Some_0;
    lemma_parse_int_sound(b, i2, ts, i3);
    assert(encode_utf8(m.content) == cb);
    assert(encode_utf8(m.nickname) == nb);
    assert(b.subrange(0, 1) =~= seq![0x93u8]);
    assert(b =~= b.subrange(0, 1) + b.subrange(1, i1) + b.subrange(i1, i2) + b.subrange(
        i2,
        b.len() as int,
    ));
}

/// Round trip: decoding the encoding of any encodable message gives back
/// exactly that message. With `encode_message` and `decode_message` tied
/// to `spec_encode` and `spec_decode`, this holds of the executable pair
/// as well. It also makes `spec_encode` injective on encodable messages:
/// two distinct messages never share an encoding.
pub proof fn lemma_encode_decode(m: ChatMessageModel)
    requires
        m.wf(),
    ensures
        spec_decode(spec_encode(m)) == Option::Some(m),
{
    broadcast use vstd::utf8::encode_utf8_valid_utf8;
    broadcast use vstd::utf8::encode_utf8_decode_utf8;

    let cb = encode_utf8(m.content);
    let nb = encode_utf8(m.nickname);
    let ea = str_enc(cb);
    let eb = str_enc(nb);
    let ec = int_enc(m.timestamp);
    let b = spec_encode(m);
    let i1 = 1 + ea.len() as int;
    let i2 = i1 + eb.len() as int;
    let i3 = i2 + ec.len() as int;
    assert(b[0] == 0x93);
    assert(b.subrange(1, i1) =~= ea);
    lemma_parse_str_enc(b, 1, cb);
    assert(b.subrange(i1, i2) =~= eb);
    lemma_parse_str_enc(b, i1, nb);
    assert(b.subrange(i2, i3) =~= ec);
    lemma_parse_int_enc(b, i2, m.timestamp);
    assert(i3 == b.len());
    assert(spec_decode(b) == Option::Some(
        ChatMessageModel {
            content: decode_utf8(cb),
            nickname: decode_utf8(nb),
            timestamp: m.timestamp,
        },
    ));
    assert(ChatMessageModel {
        content: decode_utf8(cb),
        nickname: decode_utf8(nb),
        timestamp: m.timestamp,
    } =~= m);
}

} // verus!
