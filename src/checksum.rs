//! The transmitter's file checksum: FNV-1a over 32 bits, rendered as
//! lowercase hexadecimal without leading zeros and cut to eight characters.

use vstd::prelude::*;

verus! {

/// FNV-1a offset basis.
pub const FNV_OFFSET_BASIS: u32 = 0x811C9DC5;

/// FNV-1a prime.
pub const FNV_PRIME: u32 = 0x01000193;

/// FNV-1a 32-bit hash of a byte sequence.
pub open spec fn fnv1a32(data: Seq<u8>) -> u32
    decreases data.len(),
{
    if data.len() == 0 {
        FNV_OFFSET_BASIS
    } else {
        let prev = fnv1a32(data.drop_last());
        (((prev ^ (data.last() as u32)) as nat * FNV_PRIME as nat) % 0x1_0000_0000) as u32
    }
}

/// FNV-1a 64-bit offset basis.
pub const FNV64_OFFSET_BASIS: u64 = 0xcbf29ce484222325;

/// FNV-1a 64-bit prime.
pub const FNV64_PRIME: u64 = 0x100000001b3;

/// FNV-1a 64-bit hash of a byte sequence.
pub open spec fn fnv1a64(data: Seq<u8>) -> u64
    decreases data.len(),
{
    if data.len() == 0 {
        FNV64_OFFSET_BASIS
    } else {
        let prev = fnv1a64(data.drop_last());
        (((prev ^ (data.last() as u64)) as nat * FNV64_PRIME as nat) % 0x1_0000_0000_0000_0000) as u64
    }
}

/// One bit step of the reflected CRC-32 (IEEE) register.
pub open spec fn crc_bit(c: u32) -> u32 {
    if c & 1 == 1 {
        (c >> 1) ^ 0xEDB88320u32
    } else {
        c >> 1
    }
}

/// The CRC-32 register after `k` bit steps.
pub open spec fn crc_bits(c: u32, k: nat) -> u32
    decreases k,
{
    if k == 0 {
        c
    } else {
        crc_bit(crc_bits(c, (k - 1) as nat))
    }
}

/// The CRC-32 register after all of `data`, starting from all ones.
pub open spec fn crc_register(data: Seq<u8>) -> u32
    decreases data.len(),
{
    if data.len() == 0 {
        0xFFFF_FFFFu32
    } else {
        crc_bits(crc_register(data.drop_last()) ^ (data.last() as u32), 8)
    }
}

/// CRC-32 (IEEE, reflected polynomial `0xEDB88320`, final XOR all ones).
pub open spec fn crc32_ieee(data: Seq<u8>) -> u32 {
    crc_register(data) ^ 0xFFFF_FFFFu32
}

/// The eight bytes of `n`, least significant first.
pub open spec fn le_bytes(n: u64) -> Seq<u8> {
    Seq::new(8, |k: int| ((n as int / pow256(k)) % 256) as u8)
}

pub open spec fn pow256(k: int) -> int
    decreases k,
{
    if k <= 0 {
        1
    } else {
        256 * pow256(k - 1)
    }
}

/// The eight bytes of `n`, least significant first.
pub fn le_bytes_of(n: u64) -> (r: Vec<u8>)
    ensures
        r@ == le_bytes(n),
{
    let mut out: Vec<u8> = Vec::new();
    let mut m: u64 = n;
    let mut k: usize = 0;
    while k < 8
        invariant
            k <= 8,
            m as int == n as int / pow256(k as int),
            out@.len() == k,
            forall|q: int| 0 <= q < k ==> out@[q] == ((n as int / pow256(q)) % 256) as u8,
        decreases 8 - k,
    {
        out.push((m % 256) as u8);
        proof {
            assert(pow256(k + 1) == 256 * pow256(k as int));
            assert(pow256(k as int) > 0) by {
                lemma_pow256_pos(k as int);
            }
            vstd::arithmetic::div_mod::lemma_div_denominator(n as int, pow256(k as int), 256);
            assert(pow256(k as int) * 256 == 256 * pow256(k as int)) by (nonlinear_arith);
        }
        m = m / 256;
        k = k + 1;
    }
    assert(out@ =~= le_bytes(n));
    out
}

proof fn lemma_pow256_pos(k: int)
    ensures
        pow256(k) > 0,
    decreases k,
{
    if k > 0 {
        lemma_pow256_pos(k - 1);
    }
}

/// The lowercase hexadecimal digit for a value below sixteen.
pub open spec fn hex_digit(d: nat) -> char {
    if d < 10 {
        ((d + 48) as u8) as char
    } else {
        ((d + 87) as u8) as char
    }
}

/// Lowercase hexadecimal rendering of `n`, most significant digit first,
/// without leading zeros ("0" for zero).
pub open spec fn hex_of(n: nat) -> Seq<char>
    decreases n,
{
    if n < 16 {
        seq![hex_digit(n)]
    } else {
        hex_of(n / 16).push(hex_digit(n % 16))
    }
}

/// The first eight characters of a sequence.
pub open spec fn first_eight(s: Seq<char>) -> Seq<char> {
    if s.len() <= 8 {
        s
    } else {
        s.subrange(0, 8)
    }
}

/// The checksum text the transmitter writes into metadata packets.
pub open spec fn file_checksum_text(data: Seq<u8>) -> Seq<char> {
    first_eight(hex_of(fnv1a32(data) as nat))
}

/// FNV-1a 32-bit hash of `data`.
pub fn fnv1a32_hash(data: &[u8]) -> (r: u32)
    ensures
        r == fnv1a32(data@),
{
    let mut hash: u32 = FNV_OFFSET_BASIS;
    let mut i: usize = 0;
    while i < data.len()
        invariant
            i <= data@.len(),
            hash == fnv1a32(data@.subrange(0, i as int)),
        decreases data@.len() - i,
    {
        proof {
            let next = data@.subrange(0, i + 1);
            assert(next.drop_last() =~= data@.subrange(0, i as int));
            assert(next.last() == data@[i as int]);
        }
        hash = hash ^ (data[i] as u32);
        hash = hash.wrapping_mul(FNV_PRIME);
        i = i + 1;
    }
    assert(data@.subrange(0, data@.len() as int) =~= data@);
    hash
}

fn hex_digit_str(d: u64) -> (r: &'static str)
    requires
        d < 16,
    ensures
        r@ == seq![hex_digit(d as nat)],
{
    proof {
        reveal_strlit("0");
        reveal_strlit("1");
        reveal_strlit("2");
        reveal_strlit("3");
        reveal_strlit("4");
        reveal_strlit("5");
        reveal_strlit("6");
        reveal_strlit("7");
        reveal_strlit("8");
        reveal_strlit("9");
        reveal_strlit("a");
        reveal_strlit("b");
        reveal_strlit("c");
        reveal_strlit("d");
        reveal_strlit("e");
        reveal_strlit("f");
    }
    match d {
        0 => "0",
        1 => "1",
        2 => "2",
        3 => "3",
        4 => "4",
        5 => "5",
        6 => "6",
        7 => "7",
        8 => "8",
        9 => "9",
        10 => "a",
        11 => "b",
        12 => "c",
        13 => "d",
        14 => "e",
        _ => "f",
    }
}

/// Lowercase hexadecimal text of `n` without leading zeros.
pub fn hex_text(n: u64) -> (r: String)
    ensures
        r@ == hex_of(n as nat),
{
    // digits are collected least significant first
    let mut digits: Vec<u64> = Vec::new();
    let mut m: u64 = n;
    loop
        invariant
            m <= n,
            hex_of(n as nat) == hex_of(m as nat) + Seq::new(
                digits@.len(),
                |k: int| hex_digit(digits@[digits@.len() - 1 - k] as nat),
            ),
            forall|k: int| 0 <= k < digits@.len() ==> digits@[k] < 16,
            m > 0 || digits@.len() == 0,
        ensures
            m < 16,
            hex_of(n as nat) == hex_of(m as nat) + Seq::new(
                digits@.len(),
                |k: int| hex_digit(digits@[digits@.len() - 1 - k] as nat),
            ),
            forall|k: int| 0 <= k < digits@.len() ==> digits@[k] < 16,
        decreases m,
    {
        if m < 16 {
            break;
        }
        let d = m % 16;
        proof {
            let old_tail = Seq::new(
                digits@.len(),
                |k: int| hex_digit(digits@[digits@.len() - 1 - k] as nat),
            );
            let nd = digits@.push(d);
            let new_tail = Seq::new(nd.len(), |k: int| hex_digit(nd[nd.len() - 1 - k] as nat));
            assert(new_tail =~= seq![hex_digit(d as nat)] + old_tail);
            assert(hex_of(m as nat) == hex_of((m / 16) as nat).push(hex_digit((m % 16) as nat)));
            assert(hex_of((m / 16) as nat).push(hex_digit(d as nat)) + old_tail =~= hex_of(
                (m / 16) as nat,
            ) + new_tail);
        }
        digits.push(d);
        m = m / 16;
    }
    let mut r = String::from_str(hex_digit_str(m));
    let mut j: usize = digits.len();
    while j > 0
        invariant
            j <= digits@.len(),
            forall|k: int| 0 <= k < digits@.len() ==> digits@[k] < 16,
            hex_of(n as nat) == hex_of(m as nat) + Seq::new(
                digits@.len(),
                |k: int| hex_digit(digits@[digits@.len() - 1 - k] as nat),
            ),
            m < 16,
            r@ == hex_of(m as nat) + Seq::new(
                (digits@.len() - j) as nat,
                |k: int| hex_digit(digits@[digits@.len() - 1 - k] as nat),
            ),
        decreases j,
    {
        j = j - 1;
        let piece = hex_digit_str(digits[j]);
        proof {
            let prev = Seq::new(
                (digits@.len() - j - 1) as nat,
                |k: int| hex_digit(digits@[digits@.len() - 1 - k] as nat),
            );
            let next = Seq::new(
                (digits@.len() - j) as nat,
                |k: int| hex_digit(digits@[digits@.len() - 1 - k] as nat),
            );
            assert(next =~= prev + seq![hex_digit(digits@[j as int] as nat)]);
        }
        r.append(piece);
        proof {
            assert(r@ =~= hex_of(m as nat) + Seq::new(
                (digits@.len() - j) as nat,
                |k: int| hex_digit(digits@[digits@.len() - 1 - k] as nat),
            ));
        }
    }
    proof {
        assert(r@ =~= hex_of(n as nat));
    }
    r
}

/// The checksum text of `data` as the transmitter computes it.
pub fn calculate_checksum(data: &[u8]) -> (r: String)
    ensures
        r@ == file_checksum_text(data@),
{
    let hash = fnv1a32_hash(data);
    let text = hex_text(hash as u64);
    proof {
        lemma_hex_len_bound(hash as nat);
    }
    text
}

/// A value below 2^32 has at most eight hexadecimal digits.
pub proof fn lemma_hex_len_bound(n: nat)
    requires
        n < 0x1_0000_0000,
    ensures
        hex_of(n).len() <= 8,
{
    assert(pow16(0) == 1);
    assert(pow16(1) == 16);
    assert(pow16(2) == 256);
    assert(pow16(3) == 4096);
    assert(pow16(4) == 65536);
    assert(pow16(5) == 1048576);
    assert(pow16(6) == 16777216);
    assert(pow16(7) == 268435456);
    assert(pow16(8) == 0x1_0000_0000);
    lemma_hex_len(n, 8);
}

proof fn lemma_hex_len(n: nat, k: nat)
    requires
        n < pow16(k),
        k >= 1,
    ensures
        hex_of(n).len() <= k,
    decreases n,
{
    if n >= 16 {
        assert(k >= 2) by {
            if k == 1 {
                assert(pow16(1) == 16 * pow16(0));
            }
        }
        assert(pow16(k) == 16 * pow16((k - 1) as nat));
        assert(n / 16 < pow16((k - 1) as nat));
        lemma_hex_len(n / 16, (k - 1) as nat);
    }
}

spec fn pow16(k: nat) -> nat
    decreases k,
{
    if k == 0 {
        1
    } else {
        16 * pow16((k - 1) as nat)
    }
}

/// Two lowercase hexadecimal digits per byte.
pub open spec fn hex_bytes(b: Seq<u8>) -> Seq<char>
    decreases b.len(),
{
    if b.len() == 0 {
        Seq::empty()
    } else {
        hex_bytes(b.drop_last()) + seq![
            hex_digit((b.last() / 16) as nat),
            hex_digit((b.last() % 16) as nat),
        ]
    }
}

/// Lowercase hexadecimal text of a byte string, two digits per byte.
pub fn bytes_hex(b: &[u8]) -> (r: String)
    ensures
        r@ == hex_bytes(b@),
{
    let mut out = String::new();
    let mut i: usize = 0;
    while i < b.len()
        invariant
            i <= b@.len(),
            out@ == hex_bytes(b@.subrange(0, i as int)),
        decreases b@.len() - i,
    {
        let x = b[i];
        proof {
            let p = b@.subrange(0, i + 1);
            assert(p.drop_last() =~= b@.subrange(0, i as int));
            assert(p.last() == x);
        }
        out.append(hex_digit_str((x / 16) as u64));
        out.append(hex_digit_str((x % 16) as u64));
        i = i + 1;
    }
    assert(b@.subrange(0, b@.len() as int) =~= b@);
    out
}

} // verus!
