//! The 100-bit frame: payload, BCH parity and a version tag, as a string of
//! '0' and '1'.
use vstd::prelude::*;

use crate::bch::{
    apply_flips, apply_tail_flips, bch_decode, bch_encode, bch_init, byte_or_zero, div_ceil, elp_pre_table, exp_table,
    init_cyclic, init_gen, log_table, low_mask, recv_word, register_bytes, Correction, EccState,
    POLYNOMIAL,
};

verus! {

/// Length of every frame.
pub const FRAME_BITS: usize = 100;

/// Width of the version field at the end of a frame.
pub const VERSION_BITS: u16 = 4;

/// Errors of framing and unframing.
#[derive(Debug, Clone, Copy, PartialEq, Eq, Structural)]
pub enum Error {
    /// A character other than '0' or '1'.
    InvalidChar,
    /// The payload has more bits than the version carries.
    InvalidDataLength { version_allows: usize, bits: usize },
    /// A frame that is not exactly 100 bits long.
    InvalidLength,
    /// Model input or output of unexpected dimensions.
    InvalidDim,
    /// A string that names no version.
    InvalidVersion,
    /// No version's error correction accepts the frame.
    CorruptWatermark,
}

/// The error correction schema.
#[derive(Debug, Clone, Copy, PartialEq, Eq, Structural)]
pub enum Version {
    /// Tolerates 8 bit flips.
    BchSuper,
    /// Tolerates 5 bit flips.
    Bch5,
    /// Tolerates 4 bit flips.
    Bch4,
    /// Tolerates 3 bit flips.
    Bch3,
}

impl Version {
    pub open spec fn spec_flips(self) -> u8 {
        match self {
            Version::BchSuper => 8,
            Version::Bch5 => 5,
            Version::Bch4 => 4,
            Version::Bch3 => 3,
        }
    }

    pub open spec fn spec_data_bits(self) -> u16 {
        match self {
            Version::BchSuper => 40,
            Version::Bch5 => 61,
            Version::Bch4 => 68,
            Version::Bch3 => 75,
        }
    }

    pub open spec fn spec_ecc_bits(self) -> u16 {
        (100 - VERSION_BITS - self.spec_data_bits()) as u16
    }

    /// The four bits of the version field.
    pub open spec fn tag(self) -> Seq<char> {
        match self {
            Version::BchSuper => seq!['0', '0', '0', '0'],
            Version::Bch5 => seq!['0', '0', '0', '1'],
            Version::Bch4 => seq!['0', '0', '1', '0'],
            Version::Bch3 => seq!['0', '0', '1', '1'],
        }
    }

    /// The name that `FromStr` reads.
    pub open spec fn spec_name(self) -> Seq<char> {
        match self {
            Version::BchSuper => "BCH_SUPER"@,
            Version::Bch5 => "BCH_5"@,
            Version::Bch4 => "BCH_4"@,
            Version::Bch3 => "BCH_3"@,
        }
    }

    /// Number of bit flips that this version corrects.
    pub fn allowed_bit_flips(&self) -> (r: u8)
        ensures
            r == self.spec_flips(),
    {
        match self {
            Version::BchSuper => 8,
            Version::Bch5 => 5,
            Version::Bch4 => 4,
            Version::Bch3 => 3,
        }
    }

    /// Number of payload bits that this version carries.
    pub fn data_bits(&self) -> (r: u16)
        ensures
            r == self.spec_data_bits(),
    {
        match self {
            Version::BchSuper => 40,
            Version::Bch5 => 61,
            Version::Bch4 => 68,
            Version::Bch3 => 75,
        }
    }

    /// Number of parity bits that this version carries.
    pub fn ecc_bits(&self) -> (r: u16)
        ensures
            r == self.spec_ecc_bits(),
            r + self.spec_data_bits() + VERSION_BITS == FRAME_BITS,
            r == 7 * self.spec_flips(),
    {
        100 - VERSION_BITS - self.data_bits()
    }

    /// The version field that marks this version.
    pub fn bitstring(&self) -> (r: String)
        ensures
            r@ == self.tag(),
    {
        let s = match self {
            Version::BchSuper => "0000",
            Version::Bch5 => "0001",
            Version::Bch4 => "0010",
            Version::Bch3 => "0011",
        };
        proof {
            reveal_strlit("0000");
            reveal_strlit("0001");
            reveal_strlit("0010");
            reveal_strlit("0011");
        }
        String::from_str(s)
    }

    /// Reads a version field.
    pub fn from_bitstring(s: &str) -> (r: Result<Version, Error>)
        ensures
            match r {
                Ok(v) => s@ == v.tag(),
                Err(e) => e == Error::InvalidVersion && forall|v: Version| s@ != v.tag(),
            },
    {
        if s.unicode_len() != 4 {
            return Err(Error::InvalidVersion);
        }
        let c0 = s.get_char(0);
        let c1 = s.get_char(1);
        let c2 = s.get_char(2);
        let c3 = s.get_char(3);
        assert(s@ =~= seq![c0, c1, c2, c3]);
        if c0 != '0' || c1 != '0' {
            return Err(Error::InvalidVersion);
        }
        if c2 == '0' && c3 == '0' {
            Ok(Version::BchSuper)
        } else if c2 == '0' && c3 == '1' {
            Ok(Version::Bch5)
        } else if c2 == '1' && c3 == '0' {
            Ok(Version::Bch4)
        } else if c2 == '1' && c3 == '1' {
            Ok(Version::Bch3)
        } else {
            Err(Error::InvalidVersion)
        }
    }

    /// The version's name.
    pub fn name(&self) -> (r: String)
        ensures
            r@ == self.spec_name(),
    {
        match self {
            Version::BchSuper => String::from_str("BCH_SUPER"),
            Version::Bch5 => String::from_str("BCH_5"),
            Version::Bch4 => String::from_str("BCH_4"),
            Version::Bch3 => String::from_str("BCH_3"),
        }
    }

    /// Parses a version from its name.
    pub fn from_name(s: &str) -> (r: Result<Version, Error>)
        ensures
            match r {
                Ok(v) => s@ == v.spec_name(),
                Err(e) => e == Error::InvalidVersion && forall|v: Version| s@ != v.spec_name(),
            },
    {
        if str_eq(s, "BCH_SUPER") {
            Ok(Version::BchSuper)
        } else if str_eq(s, "BCH_5") {
            Ok(Version::Bch5)
        } else if str_eq(s, "BCH_4") {
            Ok(Version::Bch4)
        } else if str_eq(s, "BCH_3") {
            Ok(Version::Bch3)
        } else {
            Err(Error::InvalidVersion)
        }
    }
}

/// Whether two strings hold the same characters.
fn str_eq(a: &str, b: &str) -> (r: bool)
    ensures
        r == (a@ == b@),
{
    let n = a.unicode_len();
    if n != b.unicode_len() {
        return false;
    }
    let mut i: usize = 0;
    while i < n
        invariant
            n == a@.len(),
            n == b@.len(),
            i <= n,
            a@.take(i as int) == b@.take(i as int),
        decreases n - i,
    {
        if a.get_char(i) != b.get_char(i) {
            return false;
        }
        i = i + 1;
        assert(a@.take(i as int) =~= a@.take(i - 1).push(a@[i - 1]));
        assert(b@.take(i as int) =~= b@.take(i - 1).push(b@[i - 1]));
    }
    assert(a@ =~= a@.take(n as int));
    assert(b@ =~= b@.take(n as int));
    true
}


/// Every character is '0' or '1'.
pub open spec fn is_binary(s: Seq<char>) -> bool {
    forall|i: int| 0 <= i < s.len() ==> s[i] == '0' || s[i] == '1'
}

/// Bit `i` of the bit string `s`, 0 past its end.
pub open spec fn bit_at(s: Seq<char>, i: int) -> int {
    if 0 <= i < s.len() && s[i] == '1' {
        1
    } else {
        0
    }
}

/// The first `nbytes` bytes of `s` read eight bits at a time, highest bit first,
/// with zeros past the end of `s`.
pub open spec fn pack(s: Seq<char>, nbytes: nat) -> Seq<u8> {
    Seq::new(
        nbytes,
        |j: int|
            (128 * bit_at(s, 8 * j) + 64 * bit_at(s, 8 * j + 1) + 32 * bit_at(s, 8 * j + 2) + 16
                * bit_at(s, 8 * j + 3) + 8 * bit_at(s, 8 * j + 4) + 4 * bit_at(s, 8 * j + 5) + 2
                * bit_at(s, 8 * j + 6) + bit_at(s, 8 * j + 7)) as u8,
    )
}

/// The character of bit `k` (0 is the highest) of byte `b`.
pub open spec fn bit_char(b: u8, k: int) -> char {
    if (b >> ((7 - k) as u8)) & 1 == 1 {
        '1'
    } else {
        '0'
    }
}

/// The first `k` bits of `bytes`, highest bit of each byte first.
pub open spec fn unpack(bytes: Seq<u8>, k: nat) -> Seq<char> {
    Seq::new(k, |i: int| bit_char(bytes[i / 8], i % 8))
}

/// `k` zeros.
pub open spec fn zeros(k: nat) -> Seq<char> {
    Seq::new(k, |i: int| '0')
}

/// Bytes that hold `bits` bits with at least one bit of padding: the frame
/// fields are always padded by `8 - bits % 8` before packing.
pub open spec fn padded_bytes(bits: int) -> nat {
    ((bits + 8 - bits % 8) / 8) as nat
}

proof fn lemma_byte_bits(b0: u8, b1: u8, b2: u8, b3: u8, b4: u8, b5: u8, b6: u8, b7: u8)
    requires
        b0 <= 1,
        b1 <= 1,
        b2 <= 1,
        b3 <= 1,
        b4 <= 1,
        b5 <= 1,
        b6 <= 1,
        b7 <= 1,
    ensures
        ({
            let x = (128 * b0 + 64 * b1 + 32 * b2 + 16 * b3 + 8 * b4 + 4 * b5 + 2 * b6 + b7) as u8;
            &&& (x >> 7u8) & 1 == b0
            &&& (x >> 6u8) & 1 == b1
            &&& (x >> 5u8) & 1 == b2
            &&& (x >> 4u8) & 1 == b3
            &&& (x >> 3u8) & 1 == b4
            &&& (x >> 2u8) & 1 == b5
            &&& (x >> 1u8) & 1 == b6
            &&& (x >> 0u8) & 1 == b7
        }),
{
    assert(b0 <= 1 && b1 <= 1 && b2 <= 1 && b3 <= 1 && b4 <= 1 && b5 <= 1 && b6 <= 1 && b7 <= 1
        ==> ({
        let x = (128 * b0 + 64 * b1 + 32 * b2 + 16 * b3 + 8 * b4 + 4 * b5 + 2 * b6 + b7) as u8;
        &&& (x >> 7u8) & 1 == b0
        &&& (x >> 6u8) & 1 == b1
        &&& (x >> 5u8) & 1 == b2
        &&& (x >> 4u8) & 1 == b3
        &&& (x >> 3u8) & 1 == b4
        &&& (x >> 2u8) & 1 == b5
        &&& (x >> 1u8) & 1 == b6
        &&& (x >> 0u8) & 1 == b7
    })) by (bit_vector);
}

/// Unpacking what was packed gives the bits back.
pub proof fn lemma_unpack_pack(s: Seq<char>, nbytes: nat)
    requires
        is_binary(s),
        s.len() <= 8 * nbytes,
    ensures
        unpack(pack(s, nbytes), s.len()) == s,
{
    assert forall|i: int| 0 <= i < s.len() implies #[trigger] unpack(pack(s, nbytes), s.len())[i]
        == s[i] by {
        let j = i / 8;
        let k = i % 8;
        assert(0 <= j < nbytes);
        let b0 = bit_at(s, 8 * j) as u8;
        let b1 = bit_at(s, 8 * j + 1) as u8;
        let b2 = bit_at(s, 8 * j + 2) as u8;
        let b3 = bit_at(s, 8 * j + 3) as u8;
        let b4 = bit_at(s, 8 * j + 4) as u8;
        let b5 = bit_at(s, 8 * j + 5) as u8;
        let b6 = bit_at(s, 8 * j + 6) as u8;
        let b7 = bit_at(s, 8 * j + 7) as u8;
        lemma_byte_bits(b0, b1, b2, b3, b4, b5, b6, b7);
        assert(pack(s, nbytes)[j] == (128 * b0 + 64 * b1 + 32 * b2 + 16 * b3 + 8 * b4 + 4 * b5 + 2
            * b6 + b7) as u8);
        assert(i == 8 * j + k);
    }
    assert(unpack(pack(s, nbytes), s.len()) =~= s);
}

/// The characters of `s`.
fn chars_of(s: &str) -> (v: Vec<char>)
    ensures
        v@ == s@,
{
    let n = s.unicode_len();
    let mut v: Vec<char> = Vec::new();
    let mut i: usize = 0;
    while i < n
        invariant
            n == s@.len(),
            i <= n,
            v@ == s@.take(i as int),
        decreases n - i,
    {
        v.push(s.get_char(i));
        i = i + 1;
        assert(v@ =~= s@.take(i as int));
    }
    assert(s@.take(n as int) =~= s@);
    v
}

/// Whether every character is '0' or '1'.
fn all_binary(v: &Vec<char>) -> (r: bool)
    ensures
        r == is_binary(v@),
{
    let mut i: usize = 0;
    while i < v.len()
        invariant
            i <= v@.len(),
            forall|j: int| 0 <= j < i ==> v@[j] == '0' || v@[j] == '1',
        decreases v.len() - i,
    {
        if v[i] != '0' && v[i] != '1' {
            return false;
        }
        i = i + 1;
    }
    true
}

/// Packs `v[from..to]` into `nbytes` bytes, as `pack` says.
fn pack_range(v: &Vec<char>, from: usize, to: usize, nbytes: usize) -> (r: Vec<u8>)
    requires
        from <= to <= v@.len(),
        nbytes <= 64,
    ensures
        r@ == pack(v@.subrange(from as int, to as int), nbytes as nat),
{
    let ghost s = v@.subrange(from as int, to as int);
    let mut r: Vec<u8> = Vec::new();
    let mut j: usize = 0;
    while j < nbytes
        invariant
            from <= to <= v@.len(),
            s == v@.subrange(from as int, to as int),
            nbytes <= 64,
            j <= nbytes,
            r@ == pack(s, j as nat),
        decreases nbytes - j,
    {
        let mut acc: u32 = 0;
        let mut k: usize = 0;
        while k < 8
            invariant
                from <= to <= v@.len(),
                s == v@.subrange(from as int, to as int),
                j < nbytes <= 64,
                k <= 8,
                acc == ({
                    let b = |q: int| bit_at(s, 8 * j + q);
                    if k == 0 {
                        0
                    } else if k == 1 {
                        b(0)
                    } else if k == 2 {
                        2 * b(0) + b(1)
                    } else if k == 3 {
                        4 * b(0) + 2 * b(1) + b(2)
                    } else if k == 4 {
                        8 * b(0) + 4 * b(1) + 2 * b(2) + b(3)
                    } else if k == 5 {
                        16 * b(0) + 8 * b(1) + 4 * b(2) + 2 * b(3) + b(4)
                    } else if k == 6 {
                        32 * b(0) + 16 * b(1) + 8 * b(2) + 4 * b(3) + 2 * b(4) + b(5)
                    } else if k == 7 {
                        64 * b(0) + 32 * b(1) + 16 * b(2) + 8 * b(3) + 4 * b(4) + 2 * b(5) + b(6)
                    } else {
                        128 * b(0) + 64 * b(1) + 32 * b(2) + 16 * b(3) + 8 * b(4) + 4 * b(5) + 2 * b(
                            6,
                        ) + b(7)
                    }
                }),
            decreases 8 - k,
        {
            let pos = 8 * j + k;
            let bit: u32 = if pos < to - from && v[from + pos] == '1' {
                1
            } else {
                0
            };
            assert(bit == bit_at(s, 8 * j + k));
            acc = 2 * acc + bit;
            k = k + 1;
        }
        r.push(acc as u8);
        assert(r@ =~= pack(s, (j + 1) as nat));
        j = j + 1;
    }
    r
}

/// Appends the first `k` bits of `bytes` to `out`.
fn push_unpacked(out: &mut String, bytes: &Vec<u8>, k: usize)
    requires
        k <= 8 * bytes@.len(),
    ensures
        final(out)@ == old(out)@ + unpack(bytes@, k as nat),
{
    proof {
        reveal_strlit("0");
        reveal_strlit("1");
    }
    let ghost start = out@;
    let mut i: usize = 0;
    while i < k
        invariant
            k <= 8 * bytes@.len(),
            i <= k,
            out@ == start + unpack(bytes@, i as nat),
        decreases k - i,
    {
        let b = bytes[i / 8];
        let sh = (7 - i % 8) as u8;
        proof {
            reveal_strlit("0");
            reveal_strlit("1");
        }
        assert("1"@ =~= seq!['1'] && "0"@ =~= seq!['0']);
        if (b >> sh) & 1 == 1 {
            out.append("1");
        } else {
            out.append("0");
        }
        assert(unpack(bytes@, (i + 1) as nat) =~= unpack(bytes@, i as nat).push(bit_char(b, i as int % 8)));
        assert(out@ =~= start + unpack(bytes@, (i + 1) as nat));
        i = i + 1;
    }
}

/// Appends `v[from..to]` to `out`.
fn push_chars(out: &mut String, v: &Vec<char>, from: usize, to: usize)
    requires
        from <= to <= v@.len(),
        is_binary(v@),
    ensures
        final(out)@ == old(out)@ + v@.subrange(from as int, to as int),
{
    proof {
        reveal_strlit("0");
        reveal_strlit("1");
    }
    let ghost start = out@;
    let mut i: usize = from;
    while i < to
        invariant
            from <= i <= to <= v@.len(),
            is_binary(v@),
            out@ == start + v@.subrange(from as int, i as int),
        decreases to - i,
    {
        proof {
            reveal_strlit("0");
            reveal_strlit("1");
        }
        assert("1"@ =~= seq!['1'] && "0"@ =~= seq!['0']);
        if v[i] == '1' {
            out.append("1");
        } else {
            out.append("0");
        }
        assert(v@.subrange(from as int, i + 1) =~= v@.subrange(from as int, i as int).push(v@[i as int]));
        assert(out@ =~= start + v@.subrange(from as int, i + 1));
        i = i + 1;
    }
}

/// Appends `k` zeros to `out`.
fn push_zeros(out: &mut String, k: usize)
    ensures
        final(out)@ == old(out)@ + zeros(k as nat),
{
    proof {
        reveal_strlit("0");
    }
    let ghost start = out@;
    let mut i: usize = 0;
    while i < k
        invariant
            i <= k,
            out@ == start + zeros(i as nat),
        decreases k - i,
    {
        proof {
            reveal_strlit("0");
        }
        assert("0"@ =~= seq!['0']);
        out.append("0");
        assert(zeros((i + 1) as nat) =~= zeros(i as nat).push('0'));
        assert(out@ =~= start + zeros((i + 1) as nat));
        i = i + 1;
    }
}


/// The frame made of the first `db` bits of `data`, the first `eb` bits of
/// `ecc` and the version field.
fn frame_string(data: &Vec<u8>, db: usize, ecc: &Vec<u8>, eb: usize, version: Version) -> (out:
    String)
    requires
        db <= 8 * data@.len(),
        eb <= 8 * ecc@.len(),
    ensures
        out@ == unpack(data@, db as nat) + unpack(ecc@, eb as nat) + version.tag(),
        is_binary(out@),
        out@.len() == db + eb + 4,
        out@.take(db as int) == unpack(data@, db as nat),
        out@.subrange(db as int, (db + eb) as int) == unpack(ecc@, eb as nat),
        out@.subrange((db + eb) as int, (db + eb + 4) as int) == version.tag(),
{
    let mut out = String::new();
    push_unpacked(&mut out, data, db);
    push_unpacked(&mut out, ecc, eb);
    let tag = version.bitstring();
    out.append(tag.as_str());
    proof {
        let pd = unpack(data@, db as nat);
        let pe = unpack(ecc@, eb as nat);
        lemma_unpack_binary(data@, db as nat);
        lemma_unpack_binary(ecc@, eb as nat);
        lemma_version_sizes(version);
        assert(out@ =~= pd + pe + version.tag());
        lemma_concat3(pd, pe, version.tag());
    }
    out
}

/// The frame made of the payload `chars` padded with zeros to `db` bits, the
/// first `eb` bits of `ecc` and the version field.
fn payload_frame(chars: &Vec<char>, db: usize, ecc: &Vec<u8>, eb: usize, version: Version) -> (out:
    String)
    requires
        is_binary(chars@),
        chars@.len() <= db,
        eb <= 8 * ecc@.len(),
    ensures
        out@ == chars@ + zeros((db - chars@.len()) as nat) + unpack(ecc@, eb as nat) + version.tag(),
        is_binary(out@),
        out@.len() == db + eb + 4,
        out@.take(db as int) == chars@ + zeros((db - chars@.len()) as nat),
        out@.subrange(db as int, (db + eb) as int) == unpack(ecc@, eb as nat),
        out@.subrange((db + eb) as int, (db + eb + 4) as int) == version.tag(),
{
    let len = chars.len();
    let mut out = String::new();
    push_chars(&mut out, chars, 0, len);
    push_zeros(&mut out, db - len);
    push_unpacked(&mut out, ecc, eb);
    let tag = version.bitstring();
    out.append(tag.as_str());
    proof {
        let p = chars@ + zeros((db - len) as nat);
        let pf = unpack(ecc@, eb as nat);
        assert(chars@.subrange(0, len as int) =~= chars@);
        assert(is_binary(p));
        lemma_unpack_binary(ecc@, eb as nat);
        lemma_version_sizes(version);
        assert(out@ =~= p + pf + version.tag());
        lemma_concat3(p, pf, version.tag());
    }
    out
}

/// An ECC state as framing builds it for version `v`.
pub open spec fn frame_state(st: EccState, v: Version) -> bool {
    &&& st.wf()
    &&& st.t == v.spec_flips()
    &&& st.poly == POLYNOMIAL
    &&& st.m == 7
    &&& st.ecc_bits == init_gen(v.spec_flips() as u32, POLYNOMIAL).1
    &&& st.cyclic_tab@ == init_cyclic(v.spec_flips() as u32, POLYNOMIAL)
    &&& st.exponents@ == exp_table(POLYNOMIAL, st.m, st.n)
    &&& st.logarithms@ == log_table(POLYNOMIAL, st.m, st.n)
    &&& st.elp_pre@ == elp_pre_table(st.exponents@, st.logarithms@, st.n, st.m)
}

/// All states that framing builds for one version have the same tables.
proof fn lemma_frame_states_agree(a: EccState, b: EccState, v: Version)
    requires
        frame_state(a, v),
        frame_state(b, v),
    ensures
        a.same_tables(&b),
{
}

/// What unframing the 100-bit string `s` at version `v` gives: the frame with
/// the payload field corrected by the decoder, or `None` when the decoder
/// reports it uncorrectable.
#[verifier::opaque]
pub open spec fn unframe(s: Seq<char>, v: Version) -> Option<Seq<char>> {
    let db = v.spec_data_bits() as int;
    let st = choose|st: EccState| frame_state(st, v);
    let data = pack(s.take(db), padded_bytes(db));
    match st.decode_outcome(data, pack(s.subrange(db, 96), padded_bytes(96 - db))) {
        None => None,
        Some(locs) => Some(unpack(apply_flips(data, locs), db as nat) + s.subrange(db, 96) + v.tag()),
    }
}

/// The order in which the other versions are tried.
pub open spec fn probe_order() -> Seq<Version> {
    seq![Version::Bch3, Version::Bch4, Version::Bch5, Version::BchSuper]
}

/// The first success of unframing `s` at the versions of the probe order from
/// index `i` on, other than `skip`.
pub open spec fn first_ok(s: Seq<char>, skip: Version, i: nat) -> Option<Seq<char>>
    decreases 4 - i,
{
    if i >= 4 {
        None
    } else {
        let v = probe_order()[i as int];
        if v != skip && unframe(s, v) is Some {
            unframe(s, v)
        } else {
            first_ok(s, skip, i + 1)
        }
    }
}

/// The version that the version field of `s` names, BchSuper when it names none.
pub open spec fn tag_or_super(s: Seq<char>) -> Version {
    if s[96] == '0' && s[97] == '0' {
        tag_version(s)
    } else {
        Version::BchSuper
    }
}

/// Unframing with the version probe: the version that the field names first,
/// then the others in the probe order.
pub open spec fn unframe_any(s: Seq<char>) -> Option<Seq<char>> {
    let v0 = tag_or_super(s);
    if unframe(s, v0) is Some {
        unframe(s, v0)
    } else {
        first_ok(s, v0, 0)
    }
}

/// The parity field that the tables of `st` give to the payload `p` of a frame
/// of version `v`.
pub open spec fn parity_field(st: EccState, p: Seq<char>, v: Version) -> Seq<char> {
    unpack(
        register_bytes(
            st.parity_of(pack(p, padded_bytes(v.spec_data_bits() as int))),
            st.ecc_bytes as nat,
        ),
        v.spec_ecc_bits() as nat,
    )
}

/// The frame `s` passes the check of version `v` under the tables of `st`: its
/// parity field agrees with the parity of its payload field in every bit that
/// the syndromes read.
pub open spec fn passes_at(st: EccState, s: Seq<char>, v: Version) -> bool {
    let db = v.spec_data_bits() as int;
    st.passes_check(pack(s.take(db), padded_bytes(db)), pack(s.subrange(db, 96), padded_bytes(96 - db)))
}

/// The frame that framing builds for the payload `p` of version `v` with the
/// tables of `st`.
pub open spec fn frame_of(st: EccState, p: Seq<char>, v: Version) -> Seq<char> {
    let db = v.spec_data_bits() as int;
    p + zeros((db - p.len()) as nat) + parity_field(st, p, v) + v.tag()
}

/// The version that the last two bits of the frame `f` name.
pub open spec fn tag_version(f: Seq<char>) -> Version {
    if f[98] == '0' && f[99] == '0' {
        Version::BchSuper
    } else if f[98] == '0' && f[99] == '1' {
        Version::Bch5
    } else if f[98] == '1' && f[99] == '0' {
        Version::Bch4
    } else {
        Version::Bch3
    }
}

/// `f` is what unframing `s` at version `v` may return: the parity field and
/// the version field of `s` as they are, and the payload field with the bits
/// at `locs` flipped, at most `t(v)` of them over payload and parity, such that
/// the corrected payload and parity pass the check of `v`: they are a codeword
/// within `t(v)` flips of `s`.
pub open spec fn accepts(s: Seq<char>, f: Seq<char>, v: Version) -> bool {
    let db = v.spec_data_bits() as int;
    let data = pack(s.take(db), padded_bytes(db));
    let ecc = pack(s.subrange(db, 96), padded_bytes(96 - db));
    &&& f.len() == FRAME_BITS
    &&& is_binary(f)
    &&& f.subrange(db, 96) == s.subrange(db, 96)
    &&& f.subrange(96, 100) == v.tag()
    &&& exists|st: EccState, locs: Seq<u32>|
        {
            &&& frame_state(st, v)
            &&& locs.len() <= v.spec_flips()
            &&& f.take(db) == unpack(apply_flips(data, locs), db as nat)
            &&& st.passes_check(
                apply_flips(data, locs),
                apply_tail_flips(ecc, locs, data.len()),
            )
        }
}

proof fn lemma_concat3(a: Seq<char>, b: Seq<char>, c: Seq<char>)
    requires
        is_binary(a),
        is_binary(b),
        is_binary(c),
    ensures
        is_binary(a + b + c),
        (a + b + c).take(a.len() as int) == a,
        (a + b + c).subrange(a.len() as int, (a.len() + b.len()) as int) == b,
        (a + b + c).subrange((a.len() + b.len()) as int, (a.len() + b.len() + c.len()) as int) == c,
        (a + b + c).len() == a.len() + b.len() + c.len(),
{
    let f = a + b + c;
    assert(f.take(a.len() as int) =~= a);
    assert(f.subrange(a.len() as int, (a.len() + b.len()) as int) =~= b);
    assert(f.subrange((a.len() + b.len()) as int, (a.len() + b.len() + c.len()) as int) =~= c);
    assert forall|i: int| 0 <= i < f.len() implies f[i] == '0' || f[i] == '1' by {
        if i < a.len() {
            assert(f[i] == a[i]);
        } else if i < a.len() + b.len() {
            assert(f[i] == b[i - a.len()]);
        } else {
            assert(f[i] == c[i - a.len() - b.len()]);
        }
    }
}

proof fn lemma_unpack_binary(bytes: Seq<u8>, k: nat)
    ensures
        is_binary(unpack(bytes, k)),
{
}

proof fn lemma_version_sizes(v: Version)
    ensures
        v.spec_data_bits() + v.spec_ecc_bits() == 96,
        padded_bytes(v.spec_data_bits() as int) * 8 + 7 * v.spec_flips() <= 127,
        padded_bytes(v.spec_data_bits() as int) <= 10,
        v.spec_data_bits() <= 8 * padded_bytes(v.spec_data_bits() as int),
        padded_bytes(v.spec_ecc_bits() as int) <= 8,
        v.spec_ecc_bits() <= 8 * padded_bytes(v.spec_ecc_bits() as int),
        v.spec_ecc_bits() <= 8 * crate::bch::div_ceil(7 * v.spec_flips(), 8),
        1 <= v.spec_flips() <= 8,
        v.tag()[0] == '0' && v.tag()[1] == '0',
        is_binary(v.tag()),
{
}

/// What unframing `s` at `v` builds from the corrected payload bytes `data`
/// (the received `data0` with the bits at `locs` flipped) and the received
/// parity bytes `ecc`.
proof fn lemma_unframed(
    s: Seq<char>,
    v: Version,
    data0: Seq<u8>,
    data: Seq<u8>,
    ecc: Seq<u8>,
    out: Seq<char>,
    locs: Seq<u32>,
    st: EccState,
)
    requires
        frame_state(st, v),
        st.passes_check(data, apply_tail_flips(ecc, locs, data0.len())),
        s.len() == FRAME_BITS,
        is_binary(s),
        data0 == pack(s.take(v.spec_data_bits() as int), padded_bytes(v.spec_data_bits() as int)),
        ecc == pack(
            s.subrange(v.spec_data_bits() as int, 96),
            padded_bytes(v.spec_ecc_bits() as int),
        ),
        out == unpack(data, v.spec_data_bits() as nat) + unpack(ecc, v.spec_ecc_bits() as nat)
            + v.tag(),
        data == apply_flips(data0, locs),
        locs.len() <= v.spec_flips(),
        is_binary(out),
        out.len() == FRAME_BITS,
    ensures
        accepts(s, out, v),
        locs.len() == 0 ==> out == s.take(96) + v.tag(),
{
    lemma_version_sizes(v);
    let db = v.spec_data_bits() as int;
    let eb = v.spec_ecc_bits() as int;
    let sd = s.take(db);
    let se = s.subrange(db, 96);
    lemma_unpack_pack(se, padded_bytes(eb));
    let pd = unpack(data, db as nat);
    let pe = unpack(ecc, eb as nat);
    assert(out.take(db) =~= pd);
    assert(out.subrange(db, 96) =~= pe);
    assert(out.subrange(96, 100) =~= v.tag());
    assert(out.take(db) == unpack(apply_flips(pack(sd, padded_bytes(db)), locs), db as nat));
    assert(96 - db == eb);
    if locs.len() == 0 {
        assert(data == data0);
        lemma_unpack_pack(sd, padded_bytes(db));
        assert(s.take(96) =~= sd + se);
        assert(out =~= s.take(96) + v.tag());
    }
}

/// A frame: 100 characters '0' or '1', the payload first, then its parity, then
/// the version field.
#[derive(Debug)]
pub struct Bits(pub String);

impl Bits {
    /// A well-formed frame.
    pub open spec fn wf(&self) -> bool {
        self.0@.len() == FRAME_BITS && is_binary(self.0@)
    }

    /// Frames `input` for `version`: the payload padded with zeros to the
    /// version's payload size, its BCH parity, and the version field.
    pub fn apply_error_correction_and_schema(input: String, version: Version) -> (r: Result<
        Self,
        Error,
    >)
        ensures
            !is_binary(input@) ==> r == Err::<Bits, Error>(Error::InvalidChar),
            is_binary(input@) && input@.len() > version.spec_data_bits() ==> r == Err::<Bits, Error>(
                Error::InvalidDataLength {
                    version_allows: version.spec_data_bits() as usize,
                    bits: input@.len() as usize,
                },
            ),
            is_binary(input@) && input@.len() <= version.spec_data_bits() ==> r is Ok,
            r matches Ok(b) ==> {
                let db = version.spec_data_bits() as int;
                &&& b.wf()
                &&& b.0@.take(db) == input@ + zeros((db - input@.len()) as nat)
                &&& b.0@.subrange(96, 100) == version.tag()
                &&& b.0@[96] == '0' && b.0@[97] == '0'
                &&& tag_version(b.0@) == version
                &&& exists|st: EccState|
                    frame_state(st, version) && b.0@.subrange(db, 96) == parity_field(
                        st,
                        input@,
                        version,
                    ) && b.0@ == frame_of(st, input@, version)
            },
    {
        let db = version.data_bits() as usize;
        let chars = chars_of(input.as_str());
        if !all_binary(&chars) {
            return Err(Error::InvalidChar);
        }
        let len = chars.len();
        if len > db {
            return Err(Error::InvalidDataLength { version_allows: db, bits: len });
        }
        proof {
            lemma_version_sizes(version);
        }
        let nb = (db + 8 - db % 8) / 8;
        let data = pack_range(&chars, 0, len, nb);
        assert(chars@.subrange(0, len as int) =~= input@);
        let t = version.allowed_bit_flips() as u32;
        proof {
            crate::bch::lemma_polynomial_valid(t);
        }
        let mut st = bch_init(t, POLYNOMIAL);
        let ghost st0 = st;
        let ecc = bch_encode(&mut st, data.as_slice());
        let eb = version.ecc_bits() as usize;
        let out = payload_frame(&chars, db, &ecc, eb, version);
        proof {
            assert(chars@.subrange(0, chars@.len() as int) =~= chars@);
            assert(frame_state(st0, version));
            assert(out@ == frame_of(st0, input@, version));
        }
        Ok(Bits(out))
    }

    /// The payload: the frame without its parity and version field.
    pub fn get_data(self) -> (r: String)
        requires
            self.wf(),
        ensures
            r@ == self.0@.take(tag_version(self.0@).spec_data_bits() as int),
    {
        let version = self.get_version();
        let db = version.data_bits() as usize;
        let chars = chars_of(self.0.as_str());
        let mut out = String::new();
        push_chars(&mut out, &chars, 0, db);
        assert(out@ =~= self.0@.take(db as int));
        out
    }

    /// The version that the frame's version field names.
    pub fn get_version(&self) -> (r: Version)
        requires
            self.wf(),
        ensures
            r == tag_version(self.0@),
            r.tag().subrange(2, 4) == self.0@.subrange(98, 100),
    {
        let a = self.0.as_str().get_char(98);
        let b = self.0.as_str().get_char(99);
        let r = if a == '0' && b == '0' {
            Version::BchSuper
        } else if a == '0' && b == '1' {
            Version::Bch5
        } else if a == '1' && b == '0' {
            Version::Bch4
        } else {
            Version::Bch3
        };
        assert(r.tag().subrange(2, 4) =~= self.0@.subrange(98, 100));
        r
    }

    /// Unframes `s` at `version`: checks the payload against the parity and
    /// corrects up to `t(version)` bit flips in it.
    fn new_with_version(s: &str, version: Version) -> (r: Result<Self, Error>)
        requires
            s@.len() == FRAME_BITS,
            is_binary(s@),
        ensures
            match r {
                Ok(b) => b.wf() && accepts(s@, b.0@, version),
                Err(e) => e == Error::CorruptWatermark,
            },
            exists|st: EccState|
                frame_state(st, version) && (passes_at(st, s@, version) ==> (r matches Ok(b)
                    && b.0@ == s@.take(96) + version.tag())),
            match r {
                Ok(b) => unframe(s@, version) == Some(b.0@),
                Err(_) => unframe(s@, version) is None,
            },
    {
        proof {
            lemma_version_sizes(version);
        }
        let db = version.data_bits() as usize;
        let eb = version.ecc_bits() as usize;
        let chars = chars_of(s);
        let nbd = (db + 8 - db % 8) / 8;
        let nbe = (eb + 8 - eb % 8) / 8;
        let mut data = pack_range(&chars, 0, db, nbd);
        let ecc = pack_range(&chars, db, db + eb, nbe);
        let ghost data0 = data@;
        let t = version.allowed_bit_flips() as u32;
        proof {
            crate::bch::lemma_polynomial_valid(t);
        }
        let mut st = bch_init(t, POLYNOMIAL);
        let ghost st0 = st;
        let res = bch_decode(&mut st, &mut data, ecc.as_slice());
        let ok = match res {
            Correction::Corrected(k) => k <= t,
            Correction::Uncorrectable => false,
        };
        proof {
            assert(s@.take(db as int) =~= s@.subrange(0, db as int));
            assert(s@.subrange(db as int, 96) =~= s@.subrange(db as int, (db + eb) as int));
            assert(frame_state(st0, version));
            reveal(unframe);
            let ch = choose|st: EccState| frame_state(st, version);
            lemma_frame_states_agree(ch, st0, version);
            crate::bch::lemma_outcome_same(ch, st0, data0, ecc@);
        }
        if !ok {
            return Err(Error::CorruptWatermark);
        }
        let out = frame_string(&data, db, &ecc, eb, version);
        proof {
            reveal(unframe);
            if let Correction::Corrected(k) = res {
                lemma_unframed(s@, version, data0, data@, ecc@, out@, st.errloc@, st0);
                let se = s@.subrange(db as int, 96);
                lemma_unpack_pack(se, nbe as nat);
                assert(out@ =~= unpack(data@, db as nat) + se + version.tag());
            }
        }
        Ok(Bits(out))
    }

    /// Unframes `s`: tries the version that its version field names and then,
    /// since that field carries no parity, every other version in the order
    /// Bch3, Bch4, Bch5, BchSuper.
    #[verifier::rlimit(100)]
    pub fn new(s: String) -> (r: Result<Self, Error>)
        ensures
            !is_binary(s@) ==> r == Err::<Bits, Error>(Error::InvalidChar),
            is_binary(s@) && s@.len() != FRAME_BITS ==> r == Err::<Bits, Error>(Error::InvalidLength),
            is_binary(s@) && s@.len() == FRAME_BITS ==> match r {
                Ok(b) => b.wf() && (exists|v: Version| accepts(s@, b.0@, v)) && unframe_any(s@)
                    == Some(b.0@),
                Err(e) => e == Error::CorruptWatermark && unframe_any(s@) is None,
            },
            forall|v: Version|
                is_binary(s@) && s@.len() == FRAME_BITS && s@.subrange(96, 100) == v.tag() ==> exists|
                    st: EccState,
                |
                    frame_state(st, v) && (passes_at(st, s@, v) ==> (r matches Ok(b) && b.0@ == s@)),
    {
        let chars = chars_of(s.as_str());
        if !all_binary(&chars) {
            return Err(Error::InvalidChar);
        }
        if chars.len() != FRAME_BITS {
            return Err(Error::InvalidLength);
        }
        let version = field_version(s.as_str());
        let first = Bits::new_with_version(s.as_str(), version);
        proof {
            reveal_strlit("0");
            assert forall|v: Version| s@.subrange(96, 100) == v.tag() implies exists|st: EccState|
                frame_state(st, v) && (passes_at(st, s@, v) ==> (first matches Ok(b) && b.0@
                    == s@)) by {
                assert(s@[96] == v.tag()[0] && s@[97] == v.tag()[1] && s@[98] == v.tag()[2] && s@[99]
                    == v.tag()[3]);
                assert(version == v);
                assert(s@ =~= s@.take(96) + v.tag());
            }
        }
        if first.is_ok() {
            return first;
        }
        let r = Bits::probe_others(s.as_str(), version);
        proof {
            assert forall|v: Version| s@.subrange(96, 100) == v.tag() implies exists|st: EccState|
                frame_state(st, v) && (passes_at(st, s@, v) ==> (r matches Ok(b) && b.0@ == s@)) by {
                let st = choose|st: EccState|
                    frame_state(st, v) && (passes_at(st, s@, v) ==> (first matches Ok(b) && b.0@
                        == s@));
                assert(!passes_at(st, s@, v));
            }
        }
        r
    }

    /// Unframes `s` at each version other than `skip`, in the order Bch3, Bch4,
    /// Bch5, BchSuper, and returns the first success.
    fn probe_others(s: &str, skip: Version) -> (r: Result<Self, Error>)
        requires
            s@.len() == FRAME_BITS,
            is_binary(s@),
        ensures
            match r {
                Ok(b) => b.wf() && (exists|v: Version| accepts(s@, b.0@, v)) && first_ok(s@, skip, 0)
                    == Some(b.0@),
                Err(e) => e == Error::CorruptWatermark && first_ok(s@, skip, 0) is None,
            },
    {
        let mut i: usize = 0;
        while i < 4
            invariant
                s@.len() == FRAME_BITS,
                is_binary(s@),
                i <= 4,
                first_ok(s@, skip, i as nat) == first_ok(s@, skip, 0),
            decreases 4 - i,
        {
            let v = probe_at(i);
            if v != skip {
                let res = Bits::new_with_version(s, v);
                if res.is_ok() {
                    return res;
                }
            }
            i = i + 1;
        }
        Err(Error::CorruptWatermark)
    }
}

/// Version `i` of the probe order.
fn probe_at(i: usize) -> (v: Version)
    requires
        i < 4,
    ensures
        v == probe_order()[i as int],
{
    if i == 0 {
        Version::Bch3
    } else if i == 1 {
        Version::Bch4
    } else if i == 2 {
        Version::Bch5
    } else {
        Version::BchSuper
    }
}

/// The version that the version field of the frame `s` names, BchSuper when it
/// names none.
fn field_version(s: &str) -> (v: Version)
    requires
        s@.len() == FRAME_BITS,
        is_binary(s@),
    ensures
        v == tag_or_super(s@),
{
    let field = s.substring_char(96, 100);
    proof {
        reveal_strlit("0");
        assert(field@.len() == 4);
        assert(field@[0] == s@[96] && field@[1] == s@[97] && field@[2] == s@[98] && field@[3] == s@[99]);
    }
    match Version::from_bitstring(field) {
        Ok(v) => v,
        Err(_) => {
            proof {
                if s@[96] == '0' && s@[97] == '0' {
                    let v = tag_version(s@);
                    assert(field@ =~= v.tag());
                }
            }
            Version::BchSuper
        },
    }
}

impl Bits {
    /// The frame's bits, `true` for '1', in order: the model's bit input.
    pub fn bit_values(&self) -> (r: Vec<bool>)
        ensures
            r@.len() == self.0@.len(),
            forall|i: int| 0 <= i < r@.len() ==> r@[i] == (self.0@[i] == '1'),
    {
        let chars = chars_of(self.0.as_str());
        let mut r: Vec<bool> = Vec::new();
        let mut i: usize = 0;
        while i < chars.len()
            invariant
                i <= chars@.len(),
                chars@ == self.0@,
                r@.len() == i,
                forall|j: int| 0 <= j < i ==> r@[j] == (self.0@[j] == '1'),
            decreases chars.len() - i,
        {
            r.push(chars[i] == '1');
            i = i + 1;
        }
        r
    }

    /// Unframes the decoder's output, given as whether each logit is negative:
    /// a negative logit reads as '0', any other as '1'.
    pub fn from_negative_logits(negative: &Vec<bool>) -> (r: Result<Self, Error>)
        ensures
            negative@.len() != FRAME_BITS ==> r == Err::<Bits, Error>(Error::InvalidLength),
            negative@.len() == FRAME_BITS ==> match r {
                Ok(b) => b.wf() && (exists|v: Version| accepts(logit_bits(negative@), b.0@, v))
                    && unframe_any(logit_bits(negative@)) == Some(b.0@),
                Err(e) => e == Error::CorruptWatermark && unframe_any(logit_bits(negative@)) is None,
            },
            forall|v: Version|
                negative@.len() == FRAME_BITS && logit_bits(negative@).subrange(96, 100) == v.tag()
                    ==> exists|st: EccState|
                    frame_state(st, v) && (passes_at(st, logit_bits(negative@), v) ==> (r matches Ok(b)
                        && b.0@ == logit_bits(negative@))),
    {
        proof {
            reveal_strlit("0");
            reveal_strlit("1");
        }
        let mut s = String::new();
        let mut i: usize = 0;
        while i < negative.len()
            invariant
                i <= negative@.len(),
                s@ == logit_bits(negative@).take(i as int),
            decreases negative.len() - i,
        {
            proof {
                reveal_strlit("0");
                reveal_strlit("1");
            }
            assert("1"@ =~= seq!['1'] && "0"@ =~= seq!['0']);
            if negative[i] {
                s.append("0");
            } else {
                s.append("1");
            }
            i = i + 1;
            assert(s@ =~= logit_bits(negative@).take(i as int));
        }
        assert(logit_bits(negative@).take(negative@.len() as int) =~= logit_bits(negative@));
        assert(is_binary(s@));
        Bits::new(s)
    }
}

/// The bit string that the signs of the decoder's logits give.
pub open spec fn logit_bits(negative: Seq<bool>) -> Seq<char> {
    Seq::new(negative.len(), |i: int| if negative[i] { '0' } else { '1' })
}

impl Error {
    /// The error's message.
    pub fn to_string(&self) -> (r: String)
        ensures
            *self == Error::CorruptWatermark ==> r@ == "corrupt watermark"@,
            *self == Error::InvalidChar ==> r@ == "allowed chars are '0' and '1'"@,
            *self == Error::InvalidLength ==> r@ == "must be of length 100"@,
            *self == Error::InvalidDim ==> r@ == "invalid dimensions"@,
            *self == Error::InvalidVersion ==> r@ == "invalid version"@,
            self matches Error::InvalidDataLength { version_allows, bits } ==> r@
                == "input bitstring ("@ + decimal(bits as nat) + " bits) has more bits than version allows ("@
                + decimal(version_allows as nat) + " bits)"@,
    {
        match self {
            Error::InvalidChar => String::from_str("allowed chars are '0' and '1'"),
            Error::InvalidDataLength { version_allows, bits } => {
                let mut s = String::from_str("input bitstring (");
                push_decimal(&mut s, *bits);
                s.append(" bits) has more bits than version allows (");
                push_decimal(&mut s, *version_allows);
                s.append(" bits)");
                s
            },
            Error::InvalidLength => String::from_str("must be of length 100"),
            Error::InvalidDim => String::from_str("invalid dimensions"),
            Error::InvalidVersion => String::from_str("invalid version"),
            Error::CorruptWatermark => String::from_str("corrupt watermark"),
        }
    }
}

/// Decimal digits of `v`, most significant first.
pub open spec fn decimal(v: nat) -> Seq<char>
    decreases v,
{
    if v < 10 {
        seq![digit_char(v)]
    } else {
        decimal(v / 10).push(digit_char(v % 10))
    }
}

pub open spec fn digit_char(d: nat) -> char {
    (('0' as u32) + d) as char
}

/// Appends the decimal digits of `v` to `out`.
fn push_decimal(out: &mut String, v: usize)
    ensures
        final(out)@ == old(out)@ + decimal(v as nat),
    decreases v,
{
    if v >= 10 {
        push_decimal(out, v / 10);
    }
    let d = v % 10;
    let lit = if d == 0 {
        "0"
    } else if d == 1 {
        "1"
    } else if d == 2 {
        "2"
    } else if d == 3 {
        "3"
    } else if d == 4 {
        "4"
    } else if d == 5 {
        "5"
    } else if d == 6 {
        "6"
    } else if d == 7 {
        "7"
    } else if d == 8 {
        "8"
    } else {
        "9"
    };
    proof {
        reveal_strlit("0");
        reveal_strlit("1");
        reveal_strlit("2");
        reveal_strlit("3");
        reveal_strlit("4");
        reveal_strlit("5");
        reveal_strlit("6");
        reveal_strlit("7");
        reveal_strlit("8");
        reveal_strlit("9");
        assert(lit@ =~= seq![digit_char(d as nat)]);
    }
    let ghost before = out@;
    out.append(lit);
    proof {
        if v >= 10 {
            assert(out@ =~= old(out)@ + decimal(v as nat));
        } else {
            assert(out@ =~= old(out)@ + decimal(v as nat));
        }
    }
}

impl std::str::FromStr for Version {
    type Err = Error;

    fn from_str(s: &str) -> Result<Self, Error> {
        Version::from_name(s)
    }
}


/// The top `c` bits of `b`, the others cleared.
pub open spec fn keep_top(b: u8, c: u32) -> u8 {
    (((b as u32) >> (8 - c) as u32) << (8 - c) as u32) as u8
}

proof fn lemma_keep_top_bits(b: u8, c: u32)
    requires
        c <= 8,
    ensures
        ({
            let bit = |q: u32| if q < c { ((b >> (7 - q) as u8) & 1) as int } else { 0int };
            keep_top(b, c) as int == 128 * bit(0) + 64 * bit(1) + 32 * bit(2) + 16 * bit(3) + 8 * bit(
                4,
            ) + 4 * bit(5) + 2 * bit(6) + bit(7)
        }),
{
    let t0 = if 0 < c { ((b >> 7u8) & 1) as u32 } else { 0u32 };
    let t1 = if 1 < c { ((b >> 6u8) & 1) as u32 } else { 0u32 };
    let t2 = if 2 < c { ((b >> 5u8) & 1) as u32 } else { 0u32 };
    let t3 = if 3 < c { ((b >> 4u8) & 1) as u32 } else { 0u32 };
    let t4 = if 4 < c { ((b >> 3u8) & 1) as u32 } else { 0u32 };
    let t5 = if 5 < c { ((b >> 2u8) & 1) as u32 } else { 0u32 };
    let t6 = if 6 < c { ((b >> 1u8) & 1) as u32 } else { 0u32 };
    let t7 = if 7 < c { ((b >> 0u8) & 1) as u32 } else { 0u32 };
    assert(c <= 8 ==> ((((b as u32) >> (8 - c) as u32) << (8 - c) as u32) as u8) as u32 == 128 * (
    if 0 < c { ((b >> 7u8) & 1) as u32 } else { 0u32 }) + 64 * (if 1 < c { ((b >> 6u8) & 1) as u32 } else { 0u32 }) + 32 * (if 2 < c { ((b >> 5u8) & 1) as u32 } else { 0u32 }) + 16 * (
    if 3 < c { ((b >> 4u8) & 1) as u32 } else { 0u32 }) + 8 * (if 4 < c { ((b >> 3u8) & 1) as u32 } else { 0u32 }) + 4 * (if 5 < c { ((b >> 2u8) & 1) as u32 } else { 0u32 }) + 2 * (
    if 6 < c { ((b >> 1u8) & 1) as u32 } else { 0u32 }) + (if 7 < c { ((b >> 0u8) & 1) as u32 } else { 0u32 })) by (bit_vector);
}

/// Repacking the first `eb` bits of `bytes` keeps, in each byte, the bits that
/// lie before `eb` and clears the others.
proof fn lemma_pack_unpack_bytes(bytes: Seq<u8>, eb: nat, nb: nat, j: int)
    requires
        eb <= 8 * bytes.len(),
        0 <= j < nb,
    ensures
        pack(unpack(bytes, eb), nb)[j] == (if 8 * j >= eb {
            0u8
        } else {
            keep_top(bytes[j], (if eb - 8 * j >= 8 { 8 } else { eb - 8 * j }) as u32)
        }),
{
    let u = unpack(bytes, eb);
    let c: u32 = (if 8 * j >= eb { 0 } else if eb - 8 * j >= 8 { 8 } else { eb - 8 * j }) as u32;
    if 8 * j < eb {
        assert(j < bytes.len());
        lemma_keep_top_bits(bytes[j], c);
        assert forall|q: u32| q < 8 implies #[trigger] bit_at(u, 8 * j + q) == (if q < c {
            ((bytes[j] >> (7 - q) as u8) & 1) as int
        } else {
            0int
        }) by {
            let x = 8 * j + q;
            if q < c {
                assert(x / 8 == j && x % 8 == q);
                assert(u[x] == bit_char(bytes[j], q as int));
                assert(((bytes[j] >> (7 - q) as u8) & 1) <= 1) by {
                    let bb = bytes[j];
                    let qq = (7 - q) as u8;
                    assert((bb >> qq) & 1 <= 1) by (bit_vector);
                }
            }
        }
        assert(bit_at(u, 8 * j + 0) == (if 0 < c { ((bytes[j] >> 7u8) & 1) as int } else { 0int }));
        assert(bit_at(u, 8 * j + 1) == (if 1 < c { ((bytes[j] >> 6u8) & 1) as int } else { 0int }));
        assert(bit_at(u, 8 * j + 2) == (if 2 < c { ((bytes[j] >> 5u8) & 1) as int } else { 0int }));
        assert(bit_at(u, 8 * j + 3) == (if 3 < c { ((bytes[j] >> 4u8) & 1) as int } else { 0int }));
        assert(bit_at(u, 8 * j + 4) == (if 4 < c { ((bytes[j] >> 3u8) & 1) as int } else { 0int }));
        assert(bit_at(u, 8 * j + 5) == (if 5 < c { ((bytes[j] >> 2u8) & 1) as int } else { 0int }));
        assert(bit_at(u, 8 * j + 6) == (if 6 < c { ((bytes[j] >> 1u8) & 1) as int } else { 0int }));
        assert(bit_at(u, 8 * j + 7) == (if 7 < c { ((bytes[j] >> 0u8) & 1) as int } else { 0int }));
    }
}


proof fn lemma_masked_word(
    r: u32,
    b0: u8,
    b1: u8,
    b2: u8,
    b3: u8,
    c0: u32,
    c1: u32,
    c2: u32,
    c3: u32,
    e: u32,
)
    requires
        1 <= e <= 31,
        c0 <= 8 && c1 <= 8 && c2 <= 8 && c3 <= 8,
        c0 >= (if e >= 8 { 8 } else { e }),
        c1 >= (if e >= 16 { 8 } else if e > 8 { e - 8 } else { 0 }),
        c2 >= (if e >= 24 { 8 } else if e > 16 { e - 16 } else { 0 }),
        c3 >= (if e > 24 { e - 24 } else { 0 }),
        (r ^ (((b0 as u32) << 24u32) | ((b1 as u32) << 16u32) | ((b2 as u32) << 8u32) | (b3 as u32)))
            & !low_mask((32 - e) as u32) == 0,
    ensures
        (r ^ (((keep_top(b0, c0) as u32) << 24u32) | ((keep_top(b1, c1) as u32) << 16u32) | ((
        keep_top(b2, c2) as u32) << 8u32) | (keep_top(b3, c3) as u32))) & !low_mask((32 - e) as u32)
            == 0,
{
    assert(1 <= e <= 31 && c0 <= 8 && c1 <= 8 && c2 <= 8 && c3 <= 8 && c0 >= (if e >= 8 {
        8
    } else {
        e
    }) && c1 >= (if e >= 16 {
        8
    } else if e > 8 {
        e - 8
    } else {
        0
    }) && c2 >= (if e >= 24 {
        8
    } else if e > 16 {
        e - 16
    } else {
        0
    }) && c3 >= (if e > 24 {
        e - 24
    } else {
        0
    }) && (r ^ (((b0 as u32) << 24u32) | ((b1 as u32) << 16u32) | ((b2 as u32) << 8u32) | (
    b3 as u32))) & !low_mask((32 - e) as u32) == 0 ==> (r ^ (((keep_top(b0, c0) as u32) << 24u32)
        | ((keep_top(b1, c1) as u32) << 16u32) | ((keep_top(b2, c2) as u32) << 8u32) | (keep_top(
        b3,
        c3,
    ) as u32))) & !low_mask((32 - e) as u32) == 0) by (bit_vector);
}

proof fn lemma_keep_all(x: u8)
    ensures
        keep_top(x, 8) == x,
{
    assert(((((x as u32) >> 0u32) << 0u32) as u8) == x) by (bit_vector);
}

proof fn lemma_pack_zeros(p: Seq<char>, k: nat, nb: nat)
    ensures
        pack(p + zeros(k), nb) == pack(p, nb),
{
    let q = p + zeros(k);
    assert forall|x: int| #[trigger] bit_at(q, x) == bit_at(p, x) by {
        if 0 <= x < p.len() {
            assert(q[x] == p[x]);
        } else if p.len() <= x < q.len() {
            assert(q[x] == '0');
        }
    }
    assert(pack(q, nb) =~= pack(p, nb));
}

/// With the tables of one ECC state, the frame that framing builds for `p`
/// passes the decoder's check at version `v`: its parity field, cut to
/// `ecc_bits(v)` bits and repacked, agrees with the parity recomputed from its
/// payload field in every bit that the syndromes read. So the decoder, run with
/// the same tables, corrects nothing and gives the payload field back.
#[verifier::rlimit(80)]
pub proof fn lemma_frame_passes_check(st: EccState, p: Seq<char>, v: Version)
    requires
        frame_state(st, v),
        is_binary(p),
        p.len() <= v.spec_data_bits(),
    ensures
        passes_at(st, frame_of(st, p, v), v),
        frame_of(st, p, v).len() == FRAME_BITS,
        is_binary(frame_of(st, p, v)),
        frame_of(st, p, v).take(v.spec_data_bits() as int) == p + zeros(
            (v.spec_data_bits() - p.len()) as nat,
        ),
        frame_of(st, p, v).subrange(96, 100) == v.tag(),
{
    lemma_version_sizes(v);
    let db = v.spec_data_bits() as int;
    let eb = v.spec_ecc_bits() as nat;
    let nbd = padded_bytes(db);
    let nbe = padded_bytes(96 - db);
    let z = zeros((db - p.len()) as nat);
    let pf = parity_field(st, p, v);
    let f = p + z + pf + v.tag();
    lemma_unpack_binary(register_bytes(st.parity_of(pack(p, nbd)), st.ecc_bytes as nat), eb);
    assert(is_binary(p + z));
    lemma_concat3(p + z, pf, v.tag());
    assert(f.take(db) == p + z);
    assert(f.subrange(db, 96) == pf);
    lemma_pack_zeros(p, (db - p.len()) as nat, nbd);
    let data = pack(p, nbd);
    let r = st.parity_of(data);
    let k = st.ecc_bytes as nat;
    let b = register_bytes(r, k);
    let pk = pack(pf, nbe);
    crate::bch::lemma_own_parity_passes(st, data);
    let deg = st.ecc_bits as int;
    assert(deg <= eb);
    assert(eb <= 8 * k);
    assert forall|j: int| 0 <= j implies #[trigger] byte_or_zero(pk, j) == keep_top(
        byte_or_zero(b, j),
        (if 8 * j >= eb { 0 } else if eb - 8 * j >= 8 { 8 } else { eb - 8 * j }) as u32,
    ) by {
        let bj = byte_or_zero(b, j);
        assert(((bj as u32) >> 8u32) << 8u32 == 0) by (bit_vector);
        if j < nbe {
            lemma_pack_unpack_bytes(b, eb, nbe, j);
        } else {
            assert(8 * j >= eb);
        }
    }
    assert forall|i: int| 0 <= i < div_ceil(deg, 32) implies #[trigger] st.syndrome_word(
        data,
        pk,
        i,
    ) == 0 by {
        lemma_frame_word(st, data, b, pk, eb, i);
    }
    assert(f == frame_of(st, p, v));
}

/// One word of the check in `lemma_frame_passes_check`.
proof fn lemma_frame_word(st: EccState, data: Seq<u8>, b: Seq<u8>, pk: Seq<u8>, eb: nat, i: int)
    requires
        st.wf(),
        st.ecc_bits <= eb,
        0 <= i < div_ceil(st.ecc_bits as int, 32),
        st.syndrome_word(data, b, i) == 0,
        forall|j: int|
            0 <= j ==> #[trigger] byte_or_zero(pk, j) == keep_top(
                byte_or_zero(b, j),
                (if 8 * j >= eb { 0 } else if eb - 8 * j >= 8 { 8 } else { eb - 8 * j }) as u32,
            ),
    ensures
        st.syndrome_word(data, pk, i) == 0,
{
    let deg = st.ecc_bits as int;
    let r = st.parity_of(data);
    {
        let c = |j: int| (if 8 * j >= eb { 0 } else if eb - 8 * j >= 8 { 8 } else { eb - 8 * j }) as u32;
        let b0 = byte_or_zero(b, 4 * i);
        let b1 = byte_or_zero(b, 4 * i + 1);
        let b2 = byte_or_zero(b, 4 * i + 2);
        let b3 = byte_or_zero(b, 4 * i + 3);
        assert(byte_or_zero(pk, 4 * i) == keep_top(b0, c(4 * i)));
        assert(byte_or_zero(pk, 4 * i + 1) == keep_top(b1, c(4 * i + 1)));
        assert(byte_or_zero(pk, 4 * i + 2) == keep_top(b2, c(4 * i + 2)));
        assert(byte_or_zero(pk, 4 * i + 3) == keep_top(b3, c(4 * i + 3)));
        if 32 * i + 32 <= deg {
            assert(c(4 * i) == 8 && c(4 * i + 1) == 8 && c(4 * i + 2) == 8 && c(4 * i + 3) == 8);
            assert(keep_top(b0, 8) == b0 && keep_top(b1, 8) == b1 && keep_top(b2, 8) == b2 && keep_top(
                b3,
                8,
            ) == b3) by {
                lemma_keep_all(b0);
                lemma_keep_all(b1);
                lemma_keep_all(b2);
                lemma_keep_all(b3);
            }
            assert(recv_word(pk, i) == recv_word(b, i));
            assert(!(deg % 32 != 0 && i == deg / 32));
        } else {
            let e = (deg - 32 * i) as u32;
            assert(deg % 32 == e && deg / 32 == i);
            lemma_masked_word(
                r[i],
                b0,
                b1,
                b2,
                b3,
                c(4 * i),
                c(4 * i + 1),
                c(4 * i + 2),
                c(4 * i + 3),
                e,
            );
        }
    }
}


/// Round trip: the frame that framing builds for `p` at version `v` passes the
/// check of `v` under the tables of any state that unframing builds for `v`, so
/// unframing gives it back unchanged; its payload field is `p` padded with
/// zeros and its version field names `v`.
pub proof fn lemma_round_trip(built: EccState, read: EccState, p: Seq<char>, v: Version)
    requires
        frame_state(built, v),
        frame_state(read, v),
        is_binary(p),
        p.len() <= v.spec_data_bits(),
    ensures
        passes_at(read, frame_of(built, p, v), v),
        frame_of(read, p, v) == frame_of(built, p, v),
        frame_of(built, p, v).len() == FRAME_BITS,
        is_binary(frame_of(built, p, v)),
        frame_of(built, p, v).take(v.spec_data_bits() as int) == p + zeros(
            (v.spec_data_bits() - p.len()) as nat,
        ),
        frame_of(built, p, v).subrange(96, 100) == v.tag(),
        tag_version(frame_of(built, p, v)) == v,
{
    lemma_frame_passes_check(built, p, v);
    lemma_version_sizes(v);
    let f = frame_of(built, p, v);
    let db = v.spec_data_bits() as int;
    let data = pack(f.take(db), padded_bytes(db));
    let recv = pack(f.subrange(db, 96), padded_bytes(96 - db));
    assert(built.last_word() == read.last_word());
    assert forall|x: Seq<u8>| #[trigger] read.parity_of(x) == built.parity_of(x) by {}
    assert forall|i: int| #[trigger] read.syndrome_word(data, recv, i) == built.syndrome_word(
        data,
        recv,
        i,
    ) by {}
    assert(parity_field(read, p, v) == parity_field(built, p, v));
    assert(f[98] == v.tag()[2] && f[99] == v.tag()[3]);
}

} // verus!
