use vstd::prelude::*;
use vstd::string::StringSliceAdditionalSpecFns;
use vstd::utf8::{encode_utf8, is_ascii_chars};
use crate::text::{push_char, decimal, push_bytes, push_decimal, push_text};

verus! {

/// The most payload bytes that one transmission command carries.
pub const CHUNK_SIZE: usize = 4096;

/// The Base64 alphabet of RFC 4648.
pub open spec fn alphabet() -> Seq<char> {
    seq!['A', 'B', 'C', 'D', 'E', 'F', 'G', 'H', 'I', 'J', 'K', 'L', 'M', 'N', 'O', 'P', 'Q', 'R', 'S', 'T', 'U', 'V', 'W', 'X', 'Y', 'Z', 'a', 'b', 'c', 'd', 'e', 'f', 'g', 'h', 'i', 'j', 'k', 'l', 'm', 'n', 'o', 'p', 'q', 'r', 's', 't', 'u', 'v', 'w', 'x', 'y', 'z', '0', '1', '2', '3', '4', '5', '6', '7', '8', '9', '+', '/']
}

/// Three bytes as one 24-bit group, the first byte highest.
pub open spec fn group(a: u8, b: u8, c: u8) -> u32 {
    ((a as u32) << 16u32) | ((b as u32) << 8u32) | (c as u32)
}

/// The six bits of `n` that start at bit `shift`, as a Base64 character.
pub open spec fn sextet(n: u32, shift: u32) -> char {
    alphabet()[((n >> shift) & 0x3Fu32) as int]
}

/// The Base64 encoding (RFC 4648, with `=` padding) of `data`.
pub open spec fn base64(data: Seq<u8>) -> Seq<char>
    decreases data.len(),
{
    if data.len() >= 3 {
        let n = group(data[0], data[1], data[2]);
        seq![sextet(n, 18), sextet(n, 12), sextet(n, 6), sextet(n, 0)] + base64(data.subrange(3, data.len() as int))
    } else if data.len() == 2 {
        let n = ((data[0] as u32) << 16u32) | ((data[1] as u32) << 8u32);
        seq![sextet(n, 18), sextet(n, 12), sextet(n, 6), '=']
    } else if data.len() == 1 {
        let n = (data[0] as u32) << 16u32;
        seq![sextet(n, 18), sextet(n, 12), '=', '=']
    } else {
        Seq::empty()
    }
}

/// The Base64 character for the six bits of `n` that start at bit `shift`.
fn symbol(n: u32, shift: u32) -> (c: char)
    requires
        shift <= 18,
    ensures
        c == sextet(n, shift),
{
    let table: [char; 64] = ['A', 'B', 'C', 'D', 'E', 'F', 'G', 'H', 'I', 'J', 'K', 'L', 'M', 'N', 'O', 'P', 'Q', 'R', 'S', 'T', 'U', 'V', 'W', 'X', 'Y', 'Z', 'a', 'b', 'c', 'd', 'e', 'f', 'g', 'h', 'i', 'j', 'k', 'l', 'm', 'n', 'o', 'p', 'q', 'r', 's', 't', 'u', 'v', 'w', 'x', 'y', 'z', '0', '1', '2', '3', '4', '5', '6', '7', '8', '9', '+', '/'];
    assert(table@ =~= alphabet());
    let v = (n >> shift) & 0x3F;
    assert(v < 64) by (bit_vector)
        requires v == (n >> shift) & 0x3Fu32;
    table[v as usize]
}

/// Encodes `data` in Base64 (RFC 4648, with `=` padding).
pub fn base64_encode(data: &[u8]) -> (out: String)
    ensures
        out@ == base64(data@),
{
    let mut out = String::new();
    let len = data.len();
    let mut i: usize = 0;
    assert(data@.subrange(0, len as int) =~= data@);
    assert(out@ + base64(data@) =~= base64(data@));
    while len - i >= 3
        invariant
            len == data@.len(),
            i <= len,
            base64(data@) == out@ + base64(data@.subrange(i as int, len as int)),
        decreases len - i,
    {
        let ghost rest = data@.subrange(i as int, len as int);
        let n = ((data[i] as u32) << 16) | ((data[i + 1] as u32) << 8) | (data[i + 2] as u32);
        assert(n == group(rest[0], rest[1], rest[2]));
        assert(rest.subrange(3, rest.len() as int) =~= data@.subrange(i + 3, len as int));
        push_char(&mut out, symbol(n, 18));
        push_char(&mut out, symbol(n, 12));
        push_char(&mut out, symbol(n, 6));
        push_char(&mut out, symbol(n, 0));
        i = i + 3;
    }
    let ghost rest = data@.subrange(i as int, len as int);
    let ghost before = out@;
    let rem = len - i;
    if rem == 1 {
        let n = (data[i] as u32) << 16;
        push_char(&mut out, symbol(n, 18));
        push_char(&mut out, symbol(n, 12));
        push_char(&mut out, '=');
        push_char(&mut out, '=');
        assert(out@ =~= before + base64(rest));
    } else if rem == 2 {
        let n = ((data[i] as u32) << 16) | ((data[i + 1] as u32) << 8);
        push_char(&mut out, symbol(n, 18));
        push_char(&mut out, symbol(n, 12));
        push_char(&mut out, symbol(n, 6));
        push_char(&mut out, '=');
        assert(out@ =~= before + base64(rest));
    } else {
        assert(out@ =~= before + base64(rest));
    }
    out
}

/// Base64 output has four characters for every three bytes or part of three.
pub proof fn law_base64_length(data: Seq<u8>)
    ensures
        base64(data).len() == 4 * ((data.len() + 2) / 3),
    decreases data.len(),
{
    if data.len() >= 3 {
        law_base64_length(data.subrange(3, data.len() as int));
    }
}

/// Base64 output consists of ASCII characters: those of the alphabet and `=`.
pub proof fn law_base64_ascii(data: Seq<u8>)
    ensures
        is_ascii_chars(base64(data)),
        forall|k: int| 0 <= k < base64(data).len() ==> alphabet().contains(#[trigger] base64(data)[k]) || base64(data)[k] == '=',
    decreases data.len(),
{
    assert forall|n: u32, s: u32| alphabet().contains(#[trigger] sextet(n, s)) && sextet(n, s) <= '\u{7f}' by {
        let v = (n >> s) & 0x3Fu32;
        assert(v < 64) by (bit_vector)
            requires v == (n >> s) & 0x3Fu32;
        assert(alphabet()[v as int] == sextet(n, s));
    }
    if data.len() >= 3 {
        law_base64_ascii(data.subrange(3, data.len() as int));
        let n = group(data[0], data[1], data[2]);
        let head = seq![sextet(n, 18), sextet(n, 12), sextet(n, 6), sextet(n, 0)];
        let tail = base64(data.subrange(3, data.len() as int));
        assert forall|k: int| 0 <= k < base64(data).len() implies (alphabet().contains(#[trigger] base64(data)[k]) || base64(data)[k] == '=') && '\0' <= base64(data)[k] <= '\u{7f}' by {
            if k < 4 {
                assert(base64(data)[k] == head[k]);
            } else {
                assert(base64(data)[k] == tail[k - 4]);
            }
        }
    }
}

/// The number of chunks that `len` payload bytes take.
pub open spec fn chunk_count(len: int) -> int {
    (len + 4095) / 4096
}

/// The `i`-th of `total` commands that transmit `payload` as image `id`:
/// the first one names the image and its format, each says whether more
/// follow (`m=1`) or not (`m=0`), and each carries up to `CHUNK_SIZE`
/// bytes of the payload.
pub open spec fn transmit_frame(id: u32, payload: Seq<u8>, i: int, total: int) -> Seq<u8> {
    let more: nat = if i + 1 < total { 1 } else { 0 };
    let head = if i == 0 {
        "\x1b_Gf=100,a=t,t=d,i=".spec_bytes() + decimal(id as nat) + ",q=2,m=".spec_bytes() + decimal(more) + ";".spec_bytes()
    } else {
        "\x1b_Gm=".spec_bytes() + decimal(more) + ";".spec_bytes()
    };
    head + chunk(payload, i) + "\x1b\\".spec_bytes()
}

/// The `i`-th piece of `payload` cut into pieces of `CHUNK_SIZE` bytes
/// (the last one shorter).
pub open spec fn chunk(payload: Seq<u8>, i: int) -> Seq<u8> {
    let start = i * 4096;
    let end = if start + 4096 < payload.len() { start + 4096 } else { payload.len() as int };
    payload.subrange(start, end)
}

/// The pieces `i`, `i + 1`, ... up to `total` of `payload`, one after the other.
pub open spec fn chunks(payload: Seq<u8>, i: int, total: int) -> Seq<u8>
    decreases total - i,
{
    if i >= total {
        Seq::empty()
    } else {
        chunk(payload, i) + chunks(payload, i + 1, total)
    }
}

proof fn lemma_chunks_suffix(payload: Seq<u8>, i: int)
    requires
        0 <= i <= chunk_count(payload.len() as int),
    ensures
        chunks(payload, i, chunk_count(payload.len() as int))
            == payload.subrange(if i * 4096 < payload.len() { i * 4096 } else { payload.len() as int }, payload.len() as int),
    decreases chunk_count(payload.len() as int) - i,
{
    let len = payload.len() as int;
    let total = chunk_count(len);
    if i < total {
        lemma_chunks_suffix(payload, i + 1);
        assert(i * 4096 < len);
        if i * 4096 + 4096 < len {
            assert(payload.subrange(i * 4096, len) =~= chunk(payload, i) + payload.subrange((i + 1) * 4096, len));
        } else {
            assert(payload.subrange(len, len) =~= Seq::<u8>::empty());
            assert(payload.subrange(i * 4096, len) =~= chunk(payload, i) + payload.subrange(len, len));
        }
    } else {
        assert(payload.subrange(len, len) =~= Seq::<u8>::empty());
    }
}

/// The image travels whole: the pieces that the commands carry, in order,
/// make up the payload, and each holds at least one and at most
/// `CHUNK_SIZE` bytes.
pub proof fn law_chunks_cover_payload(payload: Seq<u8>)
    ensures
        chunks(payload, 0, chunk_count(payload.len() as int)) == payload,
        forall|i: int| 0 <= i < chunk_count(payload.len() as int) ==> 1 <= #[trigger] chunk(payload, i).len() <= 4096,
{
    lemma_chunks_suffix(payload, 0);
    assert(payload.subrange(0, payload.len() as int) =~= payload);
}

/// The commands `i`, `i + 1`, ... up to `total`, one after the other.
pub open spec fn transmit_frames(id: u32, payload: Seq<u8>, i: int, total: int) -> Seq<u8>
    decreases total - i,
{
    if i >= total {
        Seq::empty()
    } else {
        transmit_frame(id, payload, i, total) + transmit_frames(id, payload, i + 1, total)
    }
}

/// The Kitty graphics commands that transmit the PNG `data` as image `id`:
/// its Base64 text, cut into chunks.
pub open spec fn transmit_command(id: u32, data: Seq<u8>) -> Seq<u8> {
    let payload = encode_utf8(base64(data));
    transmit_frames(id, payload, 0, chunk_count(payload.len() as int))
}

/// The Kitty graphics command that places image `id` at the cursor, over
/// `cols` columns and `rows` rows.
pub open spec fn place_command(id: u32, cols: u32, rows: u32) -> Seq<u8> {
    "\x1b_Ga=p,i=".spec_bytes() + decimal(id as nat) + ",c=".spec_bytes() + decimal(cols as nat) + ",r=".spec_bytes()
        + decimal(rows as nat) + ",q=2\x1b\\".spec_bytes()
}

/// The Kitty graphics command that deletes every placed image.
pub open spec fn clear_command() -> Seq<u8> {
    "\x1b_Ga=d,d=a,q=2\x1b\\".spec_bytes()
}

/// Appends to `buf` the commands that transmit the PNG `png_data` to the
/// terminal as image `id`.
pub fn transmit_image(buf: &mut Vec<u8>, id: u32, png_data: &[u8])
    ensures
        final(buf)@ == old(buf)@ + transmit_command(id, png_data@),
{
    let b64 = base64_encode(png_data);
    let bytes = b64.as_str().as_bytes();
    let ghost payload = bytes@;
    let len = bytes.len();
    let total = len / CHUNK_SIZE + if len % CHUNK_SIZE != 0 { 1 } else { 0 };
    assert(total == chunk_count(len as int));
    let mut i: usize = 0;
    while i < total
        invariant
            payload == bytes@,
            len == payload.len(),
            total == chunk_count(len as int),
            i <= total,
            old(buf)@ + transmit_frames(id, payload, 0, total as int) == buf@ + transmit_frames(id, payload, i as int, total as int),
        decreases total - i,
    {
        push_frame(buf, id, bytes, i, total);
        assert(transmit_frames(id, payload, i as int, total as int) =~= transmit_frame(id, payload, i as int, total as int) + transmit_frames(id, payload, i + 1, total as int));
        i = i + 1;
    }
    assert(old(buf)@ + transmit_frames(id, payload, 0, total as int) =~= buf@);
}

/// Appends to `buf` the `i`-th of the `total` commands that transmit `payload`.
#[verifier::rlimit(40)]
fn push_frame(buf: &mut Vec<u8>, id: u32, payload: &[u8], i: usize, total: usize)
    requires
        total == chunk_count(payload@.len() as int),
        i < total,
    ensures
        final(buf)@ == old(buf)@ + transmit_frame(id, payload@, i as int, total as int),
{
    let len = payload.len();
    let start = i * CHUNK_SIZE;
    let end = if len - start > CHUNK_SIZE { start + CHUNK_SIZE } else { len };
    let more: u64 = if i < total - 1 { 1 } else { 0 };
    if i == 0 {
        push_text(buf, "\x1b_Gf=100,a=t,t=d,i=");
        push_decimal(buf, id as u64);
        push_text(buf, ",q=2,m=");
        push_decimal(buf, more);
        push_text(buf, ";");
    } else {
        push_text(buf, "\x1b_Gm=");
        push_decimal(buf, more);
        push_text(buf, ";");
    }
    push_bytes(buf, payload, start, end);
    push_text(buf, "\x1b\\");
    assert(buf@ =~= old(buf)@ + transmit_frame(id, payload@, i as int, total as int));
}

/// Appends to `buf` the command that places image `id` at the cursor.
pub fn place_image(buf: &mut Vec<u8>, id: u32, cols: u32, rows: u32)
    ensures
        final(buf)@ == old(buf)@ + place_command(id, cols, rows),
{
    push_text(buf, "\x1b_Ga=p,i=");
    push_decimal(buf, id as u64);
    push_text(buf, ",c=");
    push_decimal(buf, cols as u64);
    push_text(buf, ",r=");
    push_decimal(buf, rows as u64);
    push_text(buf, ",q=2\x1b\\");
    assert(buf@ =~= old(buf)@ + place_command(id, cols, rows));
}

/// Appends to `buf` the command that deletes every placed image.
pub fn clear_placements(buf: &mut Vec<u8>)
    ensures
        final(buf)@ == old(buf)@ + clear_command(),
{
    push_text(buf, "\x1b_Ga=d,d=a,q=2\x1b\\");
}


/// The value of a Base64 character, if it belongs to the alphabet.
pub open spec fn sextet_value(c: char) -> Option<u32> {
    if 'A' <= c <= 'Z' {
        Some((c as int - 65) as u32)
    } else if 'a' <= c <= 'z' {
        Some((c as int - 71) as u32)
    } else if '0' <= c <= '9' {
        Some((c as int + 4) as u32)
    } else if c == '+' {
        Some(62)
    } else if c == '/' {
        Some(63)
    } else {
        None
    }
}

proof fn lemma_alphabet_values()
    ensures
        forall|v: int| 0 <= v < 64 ==> sextet_value(#[trigger] alphabet()[v]) == Some(v as u32),
{
    assert forall|v: int| 0 <= v < 64 implies sextet_value(#[trigger] alphabet()[v]) == Some(v as u32) by {
    }
}

/// Three bytes from four sextets, the first sextet highest.
pub open spec fn sextets_to_bytes(a: u32, b: u32, c: u32, d: u32) -> (u8, u8, u8) {
    let n = (a << 18u32) | (b << 12u32) | (c << 6u32) | d;
    (((n >> 16u32) & 0xffu32) as u8, ((n >> 8u32) & 0xffu32) as u8, (n & 0xffu32) as u8)
}

/// The bytes that a Base64 text (RFC 4648, with `=` padding at its end)
/// stands for, or `None` when it is no such text.
pub open spec fn decode_base64(s: Seq<char>) -> Option<Seq<u8>>
    decreases s.len(),
{
    if s.len() == 0 {
        Some(Seq::empty())
    } else if s.len() < 4 {
        None
    } else {
        let a = sextet_value(s[0]);
        let b = sextet_value(s[1]);
        let c = sextet_value(s[2]);
        let d = sextet_value(s[3]);
        if a is None || b is None {
            None
        } else if s.len() == 4 && s[2] == '=' && s[3] == '=' {
            Some(seq![sextets_to_bytes(a->0, b->0, 0, 0).0])
        } else if c is None {
            None
        } else if s.len() == 4 && s[3] == '=' {
            let t = sextets_to_bytes(a->0, b->0, c->0, 0);
            Some(seq![t.0, t.1])
        } else if d is None {
            None
        } else {
            let t = sextets_to_bytes(a->0, b->0, c->0, d->0);
            match decode_base64(s.subrange(4, s.len() as int)) {
                Some(rest) => Some(seq![t.0, t.1, t.2] + rest),
                None => None,
            }
        }
    }
}

proof fn lemma_sextet_small(n: u32, k: u32)
    ensures
        (n >> k) & 0x3Fu32 < 64,
{
    assert((n >> k) & 0x3Fu32 < 64) by (bit_vector);
}

/// Base64 output decodes back to the bytes it encodes, so different byte
/// sequences never share an encoding.
pub proof fn law_base64_decodes(data: Seq<u8>)
    ensures
        decode_base64(base64(data)) == Some(data),
    decreases data.len(),
{
    lemma_alphabet_values();
    let s = base64(data);
    let len = data.len() as int;
    if len >= 3 {
        let rest = data.subrange(3, len);
        law_base64_decodes(rest);
        let x = data[0];
        let y = data[1];
        let z = data[2];
        let n = group(x, y, z);
        let a = (n >> 18u32) & 0x3Fu32;
        let b = (n >> 12u32) & 0x3Fu32;
        let c = (n >> 6u32) & 0x3Fu32;
        let d = n & 0x3Fu32;
        lemma_sextet_small(n, 18);
        lemma_sextet_small(n, 12);
        lemma_sextet_small(n, 6);
        lemma_sextet_small(n, 0);
        assert(n >> 0u32 == n) by (bit_vector);
        let m = (a << 18u32) | (b << 12u32) | (c << 6u32) | d;
        assert((m >> 16u32) & 0xffu32 == x as u32 && (m >> 8u32) & 0xffu32 == y as u32 && m & 0xffu32 == z as u32) by (bit_vector)
            requires
                n == ((x as u32) << 16u32) | ((y as u32) << 8u32) | (z as u32),
                a == (n >> 18u32) & 0x3Fu32,
                b == (n >> 12u32) & 0x3Fu32,
                c == (n >> 6u32) & 0x3Fu32,
                d == n & 0x3Fu32,
                m == (a << 18u32) | (b << 12u32) | (c << 6u32) | d,
        ;
        assert(s.subrange(4, s.len() as int) =~= base64(rest));
        assert(sextet_value(s[0]) == Some(a));
        assert(sextet_value(s[1]) == Some(b));
        assert(sextet_value(s[2]) == Some(c));
        assert(sextet_value(s[3]) == Some(d));
        assert(seq![x, y, z] + rest =~= data);
    } else if len == 2 {
        let x = data[0];
        let y = data[1];
        let n = ((x as u32) << 16u32) | ((y as u32) << 8u32);
        let a = (n >> 18u32) & 0x3Fu32;
        let b = (n >> 12u32) & 0x3Fu32;
        let c = (n >> 6u32) & 0x3Fu32;
        lemma_sextet_small(n, 18);
        lemma_sextet_small(n, 12);
        lemma_sextet_small(n, 6);
        let m = (a << 18u32) | (b << 12u32) | (c << 6u32) | 0u32;
        assert((m >> 16u32) & 0xffu32 == x as u32 && (m >> 8u32) & 0xffu32 == y as u32) by (bit_vector)
            requires
                n == ((x as u32) << 16u32) | ((y as u32) << 8u32),
                a == (n >> 18u32) & 0x3Fu32,
                b == (n >> 12u32) & 0x3Fu32,
                c == (n >> 6u32) & 0x3Fu32,
                m == (a << 18u32) | (b << 12u32) | (c << 6u32) | 0u32,
        ;
        assert(sextet_value(s[0]) == Some(a));
        assert(sextet_value(s[1]) == Some(b));
        assert(sextet_value(s[2]) == Some(c));
        assert(seq![x, y] =~= data);
    } else if len == 1 {
        let x = data[0];
        let n = (x as u32) << 16u32;
        let a = (n >> 18u32) & 0x3Fu32;
        let b = (n >> 12u32) & 0x3Fu32;
        lemma_sextet_small(n, 18);
        lemma_sextet_small(n, 12);
        let m = (a << 18u32) | (b << 12u32) | (0u32 << 6u32) | 0u32;
        assert((m >> 16u32) & 0xffu32 == x as u32) by (bit_vector)
            requires
                n == (x as u32) << 16u32,
                a == (n >> 18u32) & 0x3Fu32,
                b == (n >> 12u32) & 0x3Fu32,
                m == (a << 18u32) | (b << 12u32) | (0u32 << 6u32) | 0u32,
        ;
        assert(sextet_value(s[0]) == Some(a));
        assert(sextet_value(s[1]) == Some(b));
        assert(seq![x] =~= data);
    } else {
        assert(data =~= Seq::<u8>::empty());
    }
}

/// Different byte sequences have different Base64 encodings.
pub proof fn law_base64_injective(a: Seq<u8>, b: Seq<u8>)
    requires
        base64(a) == base64(b),
    ensures
        a == b,
{
    law_base64_decodes(a);
    law_base64_decodes(b);
}

} // verus!
