use vstd::prelude::*;

verus! {

/// Number of bytes in an encoded index key.
pub const KEY_LENGTH: usize = 24;

/// The `n` low-order bytes of `v`, least significant first.
pub open spec fn le_bytes(v: nat, n: nat) -> Seq<u8>
    decreases n,
{
    if n == 0 {
        seq![]
    } else {
        seq![(v % 256) as u8] + le_bytes(v / 256, (n - 1) as nat)
    }
}

/// The number whose little-endian bytes are `s`.
pub open spec fn le_value(s: Seq<u8>) -> nat
    decreases s.len(),
{
    if s.len() == 0 {
        0
    } else {
        s[0] as nat + 256 * le_value(s.drop_first())
    }
}

pub open spec fn pow256(n: nat) -> nat
    decreases n,
{
    if n == 0 {
        1
    } else {
        256 * pow256((n - 1) as nat)
    }
}

pub proof fn lemma_le_bytes_len(v: nat, n: nat)
    ensures
        le_bytes(v, n).len() == n,
    decreases n,
{
    if n > 0 {
        lemma_le_bytes_len(v / 256, (n - 1) as nat);
    }
}

/// Decoding the encoding of a value that fits gives the value back.
pub proof fn lemma_le_value_of_bytes(v: nat, n: nat)
    requires
        v < pow256(n),
    ensures
        le_value(le_bytes(v, n)) == v,
    decreases n,
{
    if n > 0 {
        let s = le_bytes(v, n);
        lemma_le_bytes_len(v / 256, (n - 1) as nat);
        assert(s.drop_first() =~= le_bytes(v / 256, (n - 1) as nat));
        assert(v / 256 < pow256((n - 1) as nat));
        lemma_le_value_of_bytes(v / 256, (n - 1) as nat);
    }
}

/// Encoding the value of a byte string gives the byte string back.
pub proof fn lemma_le_bytes_of_value(s: Seq<u8>)
    ensures
        le_bytes(le_value(s), s.len()) =~= s,
        le_value(s) < pow256(s.len()),
    decreases s.len(),
{
    if s.len() > 0 {
        let r = s.drop_first();
        lemma_le_bytes_of_value(r);
        let v = le_value(s);
        assert(v % 256 == s[0] as nat && v / 256 == le_value(r));
        assert(le_bytes(v, s.len()) =~= seq![s[0]] + r);
        assert(s =~= seq![s[0]] + r);
    }
}

pub proof fn lemma_pow256_8()
    ensures
        pow256(8) == 0x1_0000_0000_0000_0000,
{
    reveal_with_fuel(pow256, 9);
}

/// Appends the eight little-endian bytes of `v` to `out`.
pub fn push_le_u64(out: &mut Vec<u8>, v: u64)
    ensures
        final(out)@ == old(out)@ + le_bytes(v as nat, 8),
{
    let ghost start = old(out)@;
    let mut cur: u64 = v;
    let mut i: usize = 0;
    while i < 8
        invariant
            i <= 8,
            out@ + le_bytes(cur as nat, (8 - i) as nat) =~= start + le_bytes(v as nat, 8),
        decreases 8 - i,
    {
        let b: u8 = (cur % 256) as u8;
        let ghost k = (8 - i) as nat;
        assert(le_bytes(cur as nat, k) =~= seq![b] + le_bytes((cur / 256) as nat, (k - 1) as nat));
        out.push(b);
        cur = cur / 256;
        i = i + 1;
        assert(out@ + le_bytes(cur as nat, (8 - i) as nat) =~= start + le_bytes(v as nat, 8));
    }
    assert(le_bytes(cur as nat, 0) =~= seq![]);
    assert(out@ =~= start + le_bytes(v as nat, 8));
}

/// Reads the little-endian `u64` stored in `b[off..off + 8]`.
pub fn read_le_u64(b: &[u8], off: usize) -> (r: u64)
    requires
        off + 8 <= b@.len(),
    ensures
        r as nat == le_value(b@.subrange(off as int, off + 8)),
{
    let n: usize = b.len();
    let mut acc: u64 = 0;
    let mut i: usize = 8;
    while i > 0
        invariant
            i <= 8,
            off + 8 <= n,
            n == b@.len(),
            acc as nat == le_value(b@.subrange(off + i, off + 8)),
            acc < pow256((8 - i) as nat),
        decreases i,
    {
        let ghost tail = b@.subrange(off + i, off + 8);
        let ghost longer = b@.subrange(off + i - 1, off + 8);
        assert(longer.drop_first() =~= tail);
        assert(pow256((8 - (i - 1)) as nat) == 256 * pow256((8 - i) as nat));
        proof {
            lemma_pow256_8();
            lemma_pow256_mono((8 - i) as nat, 7);
            reveal_with_fuel(pow256, 8);
        }
        acc = acc * 256 + b[off + (i - 1)] as u64;
        i = i - 1;
    }
    acc
}

pub proof fn lemma_pow256_mono(a: nat, b: nat)
    requires
        a <= b,
    ensures
        pow256(a) <= pow256(b),
    decreases b - a,
{
    if a < b {
        lemma_pow256_mono(a, (b - 1) as nat);
    }
}

/// A key of the user index: which user an entry is about, when it happened,
/// and where in the log it stands.
#[derive(Clone, Copy, Debug, PartialEq, Eq, Structural)]
pub struct UserIndexKey {
    pub user_number: u64,
    pub timestamp: u64,
    pub log_index: u64,
}

/// The 24-byte encoding of a key: its three fields, each little-endian, in order.
pub open spec fn key_bytes(user_number: u64, timestamp: u64, log_index: u64) -> Seq<u8> {
    le_bytes(user_number as nat, 8) + le_bytes(timestamp as nat, 8) + le_bytes(log_index as nat, 8)
}

/// The fields that a 24-byte string encodes.
pub open spec fn key_of_bytes(b: Seq<u8>) -> (u64, u64, u64) {
    (
        le_value(b.subrange(0, 8)) as u64,
        le_value(b.subrange(8, 16)) as u64,
        le_value(b.subrange(16, 24)) as u64,
    )
}

impl UserIndexKey {
    pub open spec fn view_bytes(&self) -> Seq<u8> {
        key_bytes(self.user_number, self.timestamp, self.log_index)
    }

    /// Encodes the key as 24 bytes.
    pub fn to_bytes(&self) -> (r: Vec<u8>)
        ensures
            r@ == self.view_bytes(),
            r@.len() == KEY_LENGTH,
    {
        let mut buf: Vec<u8> = Vec::with_capacity(KEY_LENGTH);
        push_le_u64(&mut buf, self.user_number);
        push_le_u64(&mut buf, self.timestamp);
        push_le_u64(&mut buf, self.log_index);
        proof {
            lemma_le_bytes_len(self.user_number as nat, 8);
            lemma_le_bytes_len(self.timestamp as nat, 8);
            lemma_le_bytes_len(self.log_index as nat, 8);
            assert(buf@ =~= self.view_bytes());
        }
        buf
    }

    /// Decodes a key; only a string of exactly 24 bytes is one.
    pub fn from_bytes(bytes: &[u8]) -> (r: Option<UserIndexKey>)
        ensures
            r.is_some() == (bytes@.len() == KEY_LENGTH),
            r matches Some(k) ==> k.view_bytes() == bytes@
                && (k.user_number, k.timestamp, k.log_index) == key_of_bytes(bytes@),
    {
        if bytes.len() != KEY_LENGTH {
            return None;
        }
        let user_number = read_le_u64(bytes, 0);
        let timestamp = read_le_u64(bytes, 8);
        let log_index = read_le_u64(bytes, 16);
        proof {
            let s = bytes@;
            lemma_le_bytes_of_value(s.subrange(0, 8));
            lemma_le_bytes_of_value(s.subrange(8, 16));
            lemma_le_bytes_of_value(s.subrange(16, 24));
            lemma_pow256_8();
            assert(s =~= s.subrange(0, 8) + s.subrange(8, 16) + s.subrange(16, 24));
        }
        Some(UserIndexKey { user_number, timestamp, log_index })
    }
}

/// Decoding the encoding of the fields gives the fields back.
pub proof fn lemma_key_of_bytes(user_number: u64, timestamp: u64, log_index: u64)
    ensures
        key_of_bytes(key_bytes(user_number, timestamp, log_index)) == (user_number, timestamp, log_index),
        key_bytes(user_number, timestamp, log_index).len() == KEY_LENGTH,
{
    let b = key_bytes(user_number, timestamp, log_index);
    lemma_le_bytes_len(user_number as nat, 8);
    lemma_le_bytes_len(timestamp as nat, 8);
    lemma_le_bytes_len(log_index as nat, 8);
    lemma_pow256_8();
    assert(b.subrange(0, 8) =~= le_bytes(user_number as nat, 8));
    assert(b.subrange(8, 16) =~= le_bytes(timestamp as nat, 8));
    assert(b.subrange(16, 24) =~= le_bytes(log_index as nat, 8));
    lemma_le_value_of_bytes(user_number as nat, 8);
    lemma_le_value_of_bytes(timestamp as nat, 8);
    lemma_le_value_of_bytes(log_index as nat, 8);
}

} // verus!
