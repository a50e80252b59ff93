//! The 64-symbol codec used for inline handles and identifiers.
//!
//! The alphabet is `A..Z a..z 0..9 ~ _`; the decoder additionally accepts
//! `+`/`-` for 62 and `,`/`/` for 63, and maps any unknown symbol to its own
//! byte value. No padding character is used: a trailing group of one or two
//! bytes is encoded as two or three symbols.

use vstd::prelude::*;

verus! {

/// The symbol standing for a 6-bit value.
pub open spec fn enc6(v: u8) -> u8
    recommends
        v < 64,
{
    if v < 26 {
        (65 + v) as u8  // 'A'..'Z'
    } else if v < 52 {
        (71 + v) as u8  // 'a'..'z'
    } else if v < 62 {
        (v - 4) as u8  // '0'..'9'
    } else if v == 62 {
        126u8  // '~'
    } else {
        95u8  // '_'
    }
}

/// The 6-bit value a symbol stands for; an unrecognised symbol decodes to
/// its own byte value.
pub open spec fn dec6(c: u8) -> u8 {
    if 65 <= c < 91 {
        (c - 65) as u8
    } else if 97 <= c < 123 {
        (c - 71) as u8
    } else if 48 <= c < 58 {
        (c + 4) as u8
    } else if c == 126 || c == 43 || c == 45 {
        62u8
    } else if c == 95 || c == 44 || c == 47 {
        63u8
    } else {
        c
    }
}

/// The four symbols of one three-byte group.
pub open spec fn enc_block3(b0: u8, b1: u8, b2: u8) -> Seq<u8> {
    seq![
        enc6(b0 >> 2),
        enc6(((b0 & 3) << 4) | (b1 >> 4)),
        enc6(((b1 & 0xf) << 2) | (b2 >> 6)),
        enc6(b2 & 0x3f),
    ]
}

/// The 24-bit value carried by four symbols.
pub open spec fn dec_val(c0: u8, c1: u8, c2: u8, c3: u8) -> u32 {
    (((((dec6(c0) as u32) * 64 + (dec6(c1) as u32)) * 64 + (dec6(c2) as u32)) * 64 + (dec6(
        c3,
    ) as u32)) as u32)
}

/// The three bytes of one four-symbol group.
pub open spec fn dec_block3(c0: u8, c1: u8, c2: u8, c3: u8) -> Seq<u8> {
    let v = dec_val(c0, c1, c2, c3);
    seq![((v >> 16) & 0xff) as u8, ((v >> 8) & 0xff) as u8, (v & 0xff) as u8]
}

/// The whole encoding: four symbols per three-byte group, a trailing group
/// of one byte giving two symbols and of two bytes giving three.
pub open spec fn encode64(s: Seq<u8>) -> Seq<u8>
    decreases s.len(),
{
    if s.len() == 0 {
        Seq::empty()
    } else if s.len() == 1 {
        enc_block3(s[0], 0, 0).take(2)
    } else if s.len() == 2 {
        enc_block3(s[0], s[1], 0).take(3)
    } else {
        enc_block3(s[0], s[1], s[2]) + encode64(s.skip(3))
    }
}

/// The whole decoding: three bytes per four-symbol group, a trailing group
/// of two symbols giving one byte and of three giving two; a single
/// trailing symbol gives nothing.
pub open spec fn decode64(s: Seq<u8>) -> Seq<u8>
    decreases s.len(),
{
    if s.len() >= 4 {
        dec_block3(s[0], s[1], s[2], s[3]) + decode64(s.skip(4))
    } else if s.len() == 3 {
        dec_block3(s[0], s[1], s[2], 0).take(2)
    } else if s.len() == 2 {
        dec_block3(s[0], s[1], 0, 0).take(1)
    } else {
        Seq::empty()
    }
}

/// Each of the four 6-bit parts of a group is below 64.
proof fn lemma_parts_bounded(b0: u8, b1: u8, b2: u8)
    ensures
        b0 >> 2 < 64,
        (((b0 & 3) << 4) | (b1 >> 4)) < 64,
        (((b1 & 0xf) << 2) | (b2 >> 6)) < 64,
        b2 & 0x3f < 64,
{
    assert(b0 >> 2 < 64 && (((b0 & 3) << 4) | (b1 >> 4)) < 64 && (((b1 & 0xf) << 2) | (b2 >> 6))
        < 64 && b2 & 0x3f < 64) by (bit_vector);
}

proof fn lemma_dec6_enc6(v: u8)
    requires
        v < 64,
    ensures
        dec6(enc6(v)) == v,
{
}

proof fn lemma_block_bits(b0: u8, b1: u8, b2: u8)
    ensures
        ({
            let x0 = b0 >> 2;
            let x1 = ((b0 & 3) << 4) | (b1 >> 4);
            let x2 = ((b1 & 0xf) << 2) | (b2 >> 6);
            let x3 = b2 & 0x3f;
            let v = (((((x0 as u32) * 64 + (x1 as u32)) * 64 + (x2 as u32)) * 64 + (x3 as u32)) as u32);
            &&& ((v >> 16) & 0xff) as u8 == b0
            &&& ((v >> 8) & 0xff) as u8 == b1
            &&& (v & 0xff) as u8 == b2
        }),
{
    let x0 = b0 >> 2;
    let x1 = ((b0 & 3) << 4) | (b1 >> 4);
    let x2 = ((b1 & 0xf) << 2) | (b2 >> 6);
    let x3 = b2 & 0x3f;
    assert({
        let v = (((((x0 as u32) * 64 + (x1 as u32)) * 64 + (x2 as u32)) * 64 + (x3 as u32)) as u32);
        &&& ((v >> 16) & 0xff) as u8 == b0
        &&& ((v >> 8) & 0xff) as u8 == b1
        &&& (v & 0xff) as u8 == b2
    }) by (bit_vector)
        requires
            x0 == b0 >> 2,
            x1 == ((b0 & 3) << 4) | (b1 >> 4),
            x2 == ((b1 & 0xf) << 2) | (b2 >> 6),
            x3 == b2 & 0x3f,
    ;
}

/// One full group comes back unchanged.
proof fn lemma_block_roundtrip(b0: u8, b1: u8, b2: u8)
    ensures
        dec_block3(
            enc_block3(b0, b1, b2)[0],
            enc_block3(b0, b1, b2)[1],
            enc_block3(b0, b1, b2)[2],
            enc_block3(b0, b1, b2)[3],
        ) =~= seq![b0, b1, b2],
{
    lemma_parts_bounded(b0, b1, b2);
    lemma_dec6_enc6(b0 >> 2);
    lemma_dec6_enc6(((b0 & 3) << 4) | (b1 >> 4));
    lemma_dec6_enc6(((b1 & 0xf) << 2) | (b2 >> 6));
    lemma_dec6_enc6(b2 & 0x3f);
    lemma_block_bits(b0, b1, b2);
}

/// A trailing one-byte group comes back unchanged.
proof fn lemma_partial1_roundtrip(b0: u8)
    ensures
        dec_block3(enc_block3(b0, 0, 0)[0], enc_block3(b0, 0, 0)[1], 0, 0).take(1) =~= seq![b0],
{
    lemma_parts_bounded(b0, 0, 0);
    lemma_dec6_enc6(b0 >> 2);
    assert(((b0 & 3) << 4) | (0u8 >> 4) == (b0 & 3) << 4) by (bit_vector);
    lemma_dec6_enc6((b0 & 3) << 4);
    assert(dec6(0) == 0);
    let x0 = b0 >> 2;
    let x1 = (b0 & 3) << 4;
    assert({
        let v = (((((x0 as u32) * 64 + (x1 as u32)) * 64 + 0) * 64 + 0) as u32);
        ((v >> 16) & 0xff) as u8 == b0
    }) by (bit_vector)
        requires
            x0 == b0 >> 2,
            x1 == (b0 & 3) << 4,
    ;
}

/// A trailing two-byte group comes back unchanged.
proof fn lemma_partial2_roundtrip(b0: u8, b1: u8)
    ensures
        dec_block3(
            enc_block3(b0, b1, 0)[0],
            enc_block3(b0, b1, 0)[1],
            enc_block3(b0, b1, 0)[2],
            0,
        ).take(2) =~= seq![b0, b1],
{
    lemma_parts_bounded(b0, b1, 0);
    lemma_dec6_enc6(b0 >> 2);
    lemma_dec6_enc6(((b0 & 3) << 4) | (b1 >> 4));
    assert(((b1 & 0xf) << 2) | (0u8 >> 6) == (b1 & 0xf) << 2) by (bit_vector);
    lemma_dec6_enc6((b1 & 0xf) << 2);
    assert(dec6(0) == 0);
    let x0 = b0 >> 2;
    let x1 = ((b0 & 3) << 4) | (b1 >> 4);
    let x2 = (b1 & 0xf) << 2;
    assert({
        let v = (((((x0 as u32) * 64 + (x1 as u32)) * 64 + (x2 as u32)) * 64 + 0) as u32);
        &&& ((v >> 16) & 0xff) as u8 == b0
        &&& ((v >> 8) & 0xff) as u8 == b1
    }) by (bit_vector)
        requires
            x0 == b0 >> 2,
            x1 == ((b0 & 3) << 4) | (b1 >> 4),
            x2 == (b1 & 0xf) << 2,
    ;
}

/// Decoding inverts encoding, for every byte sequence.
pub proof fn lemma_decode_encode(s: Seq<u8>)
    ensures
        decode64(encode64(s)) == s,
    decreases s.len(),
{
    if s.len() == 0 {
        assert(decode64(encode64(s)) =~= s);
    } else if s.len() == 1 {
        let e = enc_block3(s[0], 0, 0);
        assert(encode64(s) =~= seq![e[0], e[1]]);
        lemma_partial1_roundtrip(s[0]);
        assert(decode64(encode64(s)) =~= s);
    } else if s.len() == 2 {
        let e = enc_block3(s[0], s[1], 0);
        assert(encode64(s) =~= seq![e[0], e[1], e[2]]);
        lemma_partial2_roundtrip(s[0], s[1]);
        assert(decode64(encode64(s)) =~= s);
    } else {
        let e = enc_block3(s[0], s[1], s[2]);
        let rest = encode64(s.skip(3));
        assert(encode64(s) == e + rest);
        lemma_decode_encode(s.skip(3));
        lemma_block_roundtrip(s[0], s[1], s[2]);
        assert((e + rest).len() >= 4);
        assert((e + rest)[0] == e[0] && (e + rest)[1] == e[1] && (e + rest)[2] == e[2] && (e
            + rest)[3] == e[3]);
        assert((e + rest).skip(4) =~= rest);
        assert(decode64(e + rest) == dec_block3(e[0], e[1], e[2], e[3]) + decode64(rest));
        assert(decode64(encode64(s)) =~= s);
    }
}

/// Two leading symbols of a group recover the group's first byte.
proof fn lemma_tail_first_byte(b0: u8, b1: u8)
    ensures
        dec_block3(enc_block3(b0, b1, 0)[0], enc_block3(b0, b1, 0)[1], 0, 0).take(1) =~= seq![b0],
{
    lemma_parts_bounded(b0, b1, 0);
    lemma_dec6_enc6(b0 >> 2);
    lemma_dec6_enc6(((b0 & 3) << 4) | (b1 >> 4));
    assert(dec6(0) == 0);
    let x0 = b0 >> 2;
    let x1 = ((b0 & 3) << 4) | (b1 >> 4);
    assert({
        let v = (((((x0 as u32) * 64 + (x1 as u32)) * 64 + 0) * 64 + 0) as u32);
        ((v >> 16) & 0xff) as u8 == b0
    }) by (bit_vector)
        requires
            x0 == b0 >> 2,
            x1 == ((b0 & 3) << 4) | (b1 >> 4),
    ;
}

/// Dropping the last symbol of an encoding whose source has a two-byte
/// trailing group loses exactly the source's last byte.
pub proof fn lemma_decode_encode_prefix2(s: Seq<u8>)
    requires
        s.len() % 3 == 2,
    ensures
        decode64(encode64(s).take(encode64(s).len() - 1)) == s.take(s.len() - 1),
    decreases s.len(),
{
    if s.len() == 2 {
        let e = enc_block3(s[0], s[1], 0);
        assert(encode64(s) =~= seq![e[0], e[1], e[2]]);
        assert(encode64(s).take(2) =~= seq![e[0], e[1]]);
        lemma_tail_first_byte(s[0], s[1]);
        assert(decode64(encode64(s).take(2)) =~= s.take(1));
    } else {
        let e = enc_block3(s[0], s[1], s[2]);
        let rest = encode64(s.skip(3));
        assert(encode64(s) == e + rest);
        assert(rest.len() >= 3) by {
            assert(s.skip(3).len() % 3 == 2);
        }
        let cut = (e + rest).len() - 1;
        assert((e + rest).take(cut) =~= e + rest.take(rest.len() - 1));
        lemma_block_roundtrip(s[0], s[1], s[2]);
        lemma_decode_encode_prefix2(s.skip(3));
        let t = rest.take(rest.len() - 1);
        assert((e + t).len() >= 4);
        assert((e + t)[0] == e[0] && (e + t)[1] == e[1] && (e + t)[2] == e[2] && (e + t)[3]
            == e[3]);
        assert((e + t).skip(4) =~= t);
        assert(decode64(e + t) == dec_block3(e[0], e[1], e[2], e[3]) + decode64(t));
        assert(s.skip(3).take(s.skip(3).len() - 1) =~= s.take(s.len() - 1).skip(3));
        assert(decode64(encode64(s).take(encode64(s).len() - 1)) =~= s.take(s.len() - 1));
    }
}

fn sym_of(v: u8) -> (r: u8)
    requires
        v < 64,
    ensures
        r == enc6(v),
{
    if v < 26 {
        65 + v
    } else if v < 52 {
        71 + v
    } else if v < 62 {
        v - 4
    } else if v == 62 {
        126
    } else {
        95
    }
}

fn val_of(c: u8) -> (r: u8)
    ensures
        r == dec6(c),
{
    if 65 <= c && c < 91 {
        c - 65
    } else if 97 <= c && c < 123 {
        c - 71
    } else if 48 <= c && c < 58 {
        c + 4
    } else if c == 126 || c == 43 || c == 45 {
        62
    } else if c == 95 || c == 44 || c == 47 {
        63
    } else {
        c
    }
}

/// Encodes one three-byte group as four symbols.
pub fn encode_block(buffer: [u8; 3]) -> (r: [u8; 4])
    ensures
        r@ =~= enc_block3(buffer[0], buffer[1], buffer[2]),
{
    let b0 = buffer[0];
    let b1 = buffer[1];
    let b2 = buffer[2];
    proof {
        lemma_parts_bounded(b0, b1, b2);
    }
    [
        sym_of(b0 >> 2),
        sym_of(((b0 & 3) << 4) | (b1 >> 4)),
        sym_of(((b1 & 0xf) << 2) | (b2 >> 6)),
        sym_of(b2 & 0x3f),
    ]
}

fn decode_block(buffer: [u8; 4]) -> (r: [u8; 3])
    ensures
        r@ =~= dec_block3(buffer[0], buffer[1], buffer[2], buffer[3]),
{
    let d0 = val_of(buffer[0]) as u32;
    let d1 = val_of(buffer[1]) as u32;
    let d2 = val_of(buffer[2]) as u32;
    let d3 = val_of(buffer[3]) as u32;
    let value: u32 = ((d0 * 64 + d1) * 64 + d2) * 64 + d3;
    [((value >> 16) & 0xff) as u8, ((value >> 8) & 0xff) as u8, (value & 0xff) as u8]
}

/// Encodes a byte sequence; the output holds `ceil(4 * len / 3)` symbols.
pub fn encode(buffer: &[u8]) -> (r: Vec<u8>)
    ensures
        r@ == encode64(buffer@),
{
    let n = buffer.len();
    let mut rv: Vec<u8> = Vec::new();
    let mut i: usize = 0;
    proof {
        assert(buffer@.skip(0) =~= buffer@);
        assert(rv@ + encode64(buffer@) =~= encode64(buffer@));
    }
    while n - i >= 3
        invariant
            i <= n,
            n == buffer@.len(),
            encode64(buffer@) == rv@ + encode64(buffer@.skip(i as int)),
        decreases n - i,
    {
        let block = encode_block([buffer[i], buffer[i + 1], buffer[i + 2]]);
        let ghost prev = rv@;
        rv.push(block[0]);
        rv.push(block[1]);
        rv.push(block[2]);
        rv.push(block[3]);
        proof {
            let rem = buffer@.skip(i as int);
            assert(rem.len() >= 3);
            assert(rem[0] == buffer@[i as int] && rem[1] == buffer@[i as int + 1] && rem[2]
                == buffer@[i as int + 2]);
            assert(rem.skip(3) =~= buffer@.skip(i as int + 3));
            assert(rv@ =~= prev + enc_block3(rem[0], rem[1], rem[2]));
            assert(prev + encode64(rem) =~= rv@ + encode64(buffer@.skip(i as int + 3)));
        }
        i += 3;
    }
    if n - i == 1 {
        let block = encode_block([buffer[i], 0, 0]);
        let ghost prev = rv@;
        rv.push(block[0]);
        rv.push(block[1]);
        proof {
            let rem = buffer@.skip(i as int);
            assert(rem.len() == 1);
            assert(rem[0] == buffer@[i as int]);
            assert(encode64(rem) =~= seq![block@[0], block@[1]]);
            assert(rv@ =~= prev + encode64(rem));
        }
    } else if n - i == 2 {
        let block = encode_block([buffer[i], buffer[i + 1], 0]);
        let ghost prev = rv@;
        rv.push(block[0]);
        rv.push(block[1]);
        rv.push(block[2]);
        proof {
            let rem = buffer@.skip(i as int);
            assert(rem.len() == 2);
            assert(rem[0] == buffer@[i as int] && rem[1] == buffer@[i as int + 1]);
            assert(encode64(rem) =~= seq![block@[0], block@[1], block@[2]]);
            assert(rv@ =~= prev + encode64(rem));
        }
    } else {
        proof {
            assert(buffer@.skip(i as int).len() == 0);
            assert(encode64(buffer@.skip(i as int)) =~= Seq::<u8>::empty());
            assert(rv@ =~= rv@ + encode64(buffer@.skip(i as int)));
        }
    }
    rv
}

/// Decodes a symbol sequence; the output holds `3 * len / 4` bytes.
pub fn decode(encoded: &[u8]) -> (r: Vec<u8>)
    ensures
        r@ == decode64(encoded@),
{
    let n = encoded.len();
    let mut rv: Vec<u8> = Vec::new();
    let mut i: usize = 0;
    proof {
        assert(encoded@.skip(0) =~= encoded@);
        assert(rv@ + decode64(encoded@) =~= decode64(encoded@));
    }
    while n - i >= 4
        invariant
            i <= n,
            n == encoded@.len(),
            decode64(encoded@) == rv@ + decode64(encoded@.skip(i as int)),
        decreases n - i,
    {
        let block = decode_block([encoded[i], encoded[i + 1], encoded[i + 2], encoded[i + 3]]);
        let ghost prev = rv@;
        rv.push(block[0]);
        rv.push(block[1]);
        rv.push(block[2]);
        proof {
            let rem = encoded@.skip(i as int);
            assert(rem.len() >= 4);
            assert(rem[0] == encoded@[i as int] && rem[1] == encoded@[i as int + 1] && rem[2]
                == encoded@[i as int + 2] && rem[3] == encoded@[i as int + 3]);
            assert(rem.skip(4) =~= encoded@.skip(i as int + 4));
            assert(rv@ =~= prev + dec_block3(rem[0], rem[1], rem[2], rem[3]));
            assert(prev + decode64(rem) =~= rv@ + decode64(encoded@.skip(i as int + 4)));
        }
        i += 4;
    }
    if n - i == 3 {
        let block = decode_block([encoded[i], encoded[i + 1], encoded[i + 2], 0]);
        let ghost prev = rv@;
        rv.push(block[0]);
        rv.push(block[1]);
        proof {
            let rem = encoded@.skip(i as int);
            assert(rem.len() == 3);
            assert(rem[0] == encoded@[i as int] && rem[1] == encoded@[i as int + 1] && rem[2]
                == encoded@[i as int + 2]);
            assert(decode64(rem) =~= seq![block@[0], block@[1]]);
            assert(rv@ =~= prev + decode64(rem));
        }
    } else if n - i == 2 {
        let block = decode_block([encoded[i], encoded[i + 1], 0, 0]);
        let ghost prev = rv@;
        rv.push(block[0]);
        proof {
            let rem = encoded@.skip(i as int);
            assert(rem.len() == 2);
            assert(rem[0] == encoded@[i as int] && rem[1] == encoded@[i as int + 1]);
            assert(decode64(rem) =~= seq![block@[0]]);
            assert(rv@ =~= prev + decode64(rem));
        }
    } else {
        proof {
            let rem = encoded@.skip(i as int);
            assert(rem.len() < 2);
            assert(decode64(rem) =~= Seq::<u8>::empty());
            assert(rv@ =~= rv@ + decode64(rem));
        }
    }
    rv
}

} // verus!
