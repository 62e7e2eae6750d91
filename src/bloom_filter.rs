//! A Bloom filter over string keys, with probe positions derived from a
//! BLAKE2b digest of the key repeated once per probe.
use blake2::digest::{Update, VariableOutput};
use blake2::VarBlake2b;
use vstd::arithmetic::power2::*;
use vstd::prelude::*;
use vstd::utf8::encode_utf8;

use crate::errors::Error;
use crate::rate::{filter_bits, filter_probes, filter_size, lemma_sizing_valid, ErrorRate};

verus! {

/// Width in bytes of the digest that each probe position is read from.
pub const DIGEST_WIDTH: usize = 4;

/// The BLAKE2b digest of `data` with an output of `width` bytes.
pub uninterp spec fn blake2b_digest(data: Seq<u8>, width: nat) -> Seq<u8>;

/// Relies on blake2's `VarBlake2b`: `new` accepts an output size from 1 to 64
/// bytes, and `finalize_boxed` hands out exactly that many bytes of the
/// digest of the data given to `update`.
#[verifier::external_body]
fn blake2b(data: &[u8], width: usize) -> (r: Vec<u8>)
    requires
        1 <= width <= 64,
    ensures
        r@ == blake2b_digest(data@, width as nat),
        r@.len() == width,
{
    let mut hasher = VarBlake2b::new(width).unwrap();
    Update::update(&mut hasher, data);
    hasher.finalize_boxed().into_vec()
}

/// `b` concatenated with itself `n` times.
pub open spec fn repeat(b: Seq<u8>, n: nat) -> Seq<u8>
    decreases n,
{
    if n == 0 {
        Seq::empty()
    } else {
        repeat(b, (n - 1) as nat) + b
    }
}

/// The lowercase hexadecimal digits of one byte, without a leading zero.
pub open spec fn byte_hex_digits(b: u8) -> Seq<u8> {
    if b < 16 {
        seq![b]
    } else {
        seq![b / 16, b % 16]
    }
}

/// The digit values of the bytes rendered one after the other in hexadecimal.
pub open spec fn hex_numeral(bytes: Seq<u8>) -> Seq<u8>
    decreases bytes.len(),
{
    if bytes.len() == 0 {
        Seq::empty()
    } else {
        hex_numeral(bytes.drop_last()) + byte_hex_digits(bytes.last())
    }
}

/// The value of a base-16 numeral given by its digit values.
pub open spec fn numeral_value(digits: Seq<u8>) -> nat
    decreases digits.len(),
{
    if digits.len() == 0 {
        0
    } else {
        (numeral_value(digits.drop_last()) * 16 + digits.last()) as nat
    }
}

/// Reading a numeral as a `usize`: there is none for an empty numeral or
/// one past `usize::MAX`.
pub open spec fn parse_numeral(digits: Seq<u8>) -> Option<nat> {
    if digits.len() == 0 || numeral_value(digits) > usize::MAX {
        None
    } else {
        Some(numeral_value(digits))
    }
}

/// The number read from the digest of probe `i` of `key`.
pub open spec fn probe_value(key: Seq<char>, i: nat) -> nat {
    numeral_value(
        hex_numeral(blake2b_digest(repeat(encode_utf8(key), i + 1), DIGEST_WIDTH as nat)),
    )
}

/// The bit position of probe `i` of `key` in a field of `size` bits.
pub open spec fn probe_position(key: Seq<char>, i: nat, size: nat) -> nat {
    probe_value(key, i) % size
}

/// The mask of position `p` within its byte.
pub open spec fn bit_mask(p: nat) -> u8 {
    1u8 << ((p % 8) as u32)
}

/// Whether bit `p` is set; bit `p` is bit `p % 8` of byte `p / 8`.
pub open spec fn is_set(bytes: Seq<u8>, p: nat) -> bool {
    bytes[(p / 8) as int] & bit_mask(p) == bit_mask(p)
}

/// The bytes with bit `p` set.
pub open spec fn set_bit(bytes: Seq<u8>, p: nat) -> Seq<u8> {
    bytes.update((p / 8) as int, bytes[(p / 8) as int] | bit_mask(p))
}

/// The bytes with the bits of the first `j` probes of `key` set, in order.
pub open spec fn set_probes(bytes: Seq<u8>, key: Seq<char>, size: nat, j: nat) -> Seq<u8>
    decreases j,
{
    if j == 0 {
        bytes
    } else {
        set_bit(set_probes(bytes, key, size, (j - 1) as nat), probe_position(key, (j - 1) as nat, size))
    }
}

/// The number of bytes that hold `size` bits.
pub open spec fn bytes_for(size: nat) -> nat {
    (size + 7) as nat / 8
}

/// What a filter is: its probe count, its bit-field length, and the packed bits.
pub struct FilterModel {
    pub key_size: nat,
    pub size: nat,
    pub bytes: Seq<u8>,
}

impl FilterModel {
    pub open spec fn well_formed(self) -> bool {
        &&& self.key_size >= 1
        &&& self.size >= 1
        &&& self.bytes.len() == bytes_for(self.size)
    }

    /// A filter of `key_size` probes over `size` bits, none of them set.
    pub open spec fn empty(key_size: nat, size: nat) -> FilterModel {
        FilterModel { key_size, size, bytes: Seq::new(bytes_for(size), |i: int| 0u8) }
    }

    /// The filter made for `capacity` keys at the rate `num / den`.
    pub open spec fn fresh(capacity: nat, num: nat, den: nat) -> FilterModel {
        let size = filter_bits(capacity, num, den);
        FilterModel::empty(filter_probes(capacity, size), size)
    }

    pub open spec fn insert(self, key: Seq<char>) -> FilterModel {
        FilterModel { bytes: set_probes(self.bytes, key, self.size, self.key_size), ..self }
    }

    /// The filter after inserting each of `keys`, first to last.
    pub open spec fn insert_all(self, keys: Seq<Seq<char>>) -> FilterModel
        decreases keys.len(),
    {
        if keys.len() == 0 {
            self
        } else {
            self.insert_all(keys.drop_last()).insert(keys.last())
        }
    }

    pub open spec fn contains(self, key: Seq<char>) -> bool {
        forall|i: nat| i < self.key_size ==> is_set(self.bytes, #[trigger] probe_position(key, i, self.size))
    }
}

/// A fixed-size probabilistic set of strings: no false negatives, and false
/// positives at about the rate it was sized for.
pub struct BloomFilter {
    key_size: u32,
    bitfield: Vec<u8>,
    bitfield_size: usize,
}

impl View for BloomFilter {
    type V = FilterModel;

    closed spec fn view(&self) -> FilterModel {
        FilterModel {
            key_size: self.key_size as nat,
            size: self.bitfield_size as nat,
            bytes: self.bitfield@,
        }
    }
}

proof fn lemma_mask_bits(b: u8, c: u8, s: u32)
    requires
        s < 8,
    ensures
        (b | (1u8 << s)) & (1u8 << s) == (1u8 << s),
        c & (1u8 << s) == (1u8 << s) ==> (c | b) & (1u8 << s) == (1u8 << s),
        b & (1u8 << s) == (1u8 << s) ==> b | (1u8 << s) == b,
        0u8 & (1u8 << s) != (1u8 << s),
{
    assert((b | (1u8 << s)) & (1u8 << s) == (1u8 << s)) by (bit_vector)
        requires
            s < 8,
    ;
    assert(c & (1u8 << s) == (1u8 << s) ==> (c | b) & (1u8 << s) == (1u8 << s)) by (bit_vector)
        requires
            s < 8,
    ;
    assert(b & (1u8 << s) == (1u8 << s) ==> b | (1u8 << s) == b) by (bit_vector)
        requires
            s < 8,
    ;
    assert(0u8 & (1u8 << s) != (1u8 << s)) by (bit_vector)
        requires
            s < 8,
    ;
}

/// Setting a bit sets it, and keeps every bit that was set.
proof fn lemma_set_bit(bytes: Seq<u8>, p: nat, q: nat)
    requires
        p / 8 < bytes.len(),
        q / 8 < bytes.len(),
    ensures
        is_set(set_bit(bytes, p), p),
        is_set(bytes, q) ==> is_set(set_bit(bytes, p), q),
        is_set(bytes, p) ==> set_bit(bytes, p) == bytes,
{
    let b = bytes[(p / 8) as int];
    lemma_mask_bits(b, b, (p % 8) as u32);
    if q / 8 == p / 8 {
        let m = bit_mask(p);
        lemma_mask_bits(m, b, (q % 8) as u32);
        assert((b | m) == (m | b)) by (bit_vector);
    }
    if is_set(bytes, p) {
        assert(set_bit(bytes, p) =~= bytes);
    }
}

/// Every position is below the bit-field length, so its byte is in range.
proof fn lemma_position_in_range(key: Seq<char>, i: nat, size: nat)
    requires
        size >= 1,
    ensures
        probe_position(key, i, size) < size,
        probe_position(key, i, size) / 8 < bytes_for(size),
{
}

/// Inserting keeps every set bit and sets the bits of the first `j` probes.
proof fn lemma_set_probes(bytes: Seq<u8>, key: Seq<char>, size: nat, j: nat, q: nat)
    requires
        size >= 1,
        bytes.len() == bytes_for(size),
        q < size,
    ensures
        set_probes(bytes, key, size, j).len() == bytes.len(),
        is_set(bytes, q) ==> is_set(set_probes(bytes, key, size, j), q),
        forall|i: nat| i < j ==> is_set(set_probes(bytes, key, size, j), #[trigger] probe_position(key, i, size)),
    decreases j,
{
    if j > 0 {
        let prev = set_probes(bytes, key, size, (j - 1) as nat);
        let p = probe_position(key, (j - 1) as nat, size);
        lemma_set_probes(bytes, key, size, (j - 1) as nat, q);
        lemma_position_in_range(key, (j - 1) as nat, size);
        lemma_set_bit(prev, p, q);
        assert forall|i: nat| i < j implies is_set(set_probes(bytes, key, size, j), #[trigger] probe_position(key, i, size)) by {
            lemma_position_in_range(key, i, size);
            lemma_set_probes(bytes, key, size, (j - 1) as nat, probe_position(key, i, size));
            lemma_set_bit(prev, p, probe_position(key, i, size));
        }
    }
}

/// Setting bits that are all set already changes nothing.
proof fn lemma_set_probes_when_set(bytes: Seq<u8>, key: Seq<char>, size: nat, j: nat)
    requires
        size >= 1,
        bytes.len() == bytes_for(size),
        forall|i: nat| i < j ==> is_set(bytes, #[trigger] probe_position(key, i, size)),
    ensures
        set_probes(bytes, key, size, j) == bytes,
    decreases j,
{
    if j > 0 {
        lemma_set_probes_when_set(bytes, key, size, (j - 1) as nat);
        lemma_position_in_range(key, (j - 1) as nat, size);
        lemma_set_bit(bytes, probe_position(key, (j - 1) as nat, size), 0);
    }
}

impl FilterModel {
    /// Inserting keeps the filter well formed, and every key it contained.
    pub proof fn lemma_insert_keeps(self, key: Seq<char>, other: Seq<char>)
        requires
            self.well_formed(),
        ensures
            self.insert(key).well_formed(),
            self.insert(key).contains(key),
            self.contains(other) ==> self.insert(key).contains(other),
    {
        lemma_set_probes(self.bytes, key, self.size, self.key_size, 0);
        assert forall|i: nat| i < self.key_size && self.contains(other) implies is_set(
            self.insert(key).bytes,
            #[trigger] probe_position(other, i, self.size),
        ) by {
            lemma_position_in_range(other, i, self.size);
            lemma_set_probes(self.bytes, key, self.size, self.key_size, probe_position(other, i, self.size));
        }
    }

    /// No false negatives: after any sequence of insertions, every key
    /// inserted along the way is reported present, whatever came before or after it.
    pub proof fn lemma_no_false_negatives(self, keys: Seq<Seq<char>>, i: int)
        requires
            self.well_formed(),
            0 <= i < keys.len(),
        ensures
            self.insert_all(keys).contains(keys[i]),
            self.insert_all(keys).well_formed(),
        decreases keys.len(),
    {
        let init = keys.drop_last();
        self.lemma_insert_all_well_formed(init);
        if i == keys.len() - 1 {
            self.insert_all(init).lemma_insert_keeps(keys.last(), keys.last());
        } else {
            self.lemma_no_false_negatives(init, i);
            self.insert_all(init).lemma_insert_keeps(keys.last(), keys[i]);
        }
    }

    /// Insertions keep a filter well formed.
    pub proof fn lemma_insert_all_well_formed(self, keys: Seq<Seq<char>>)
        requires
            self.well_formed(),
        ensures
            self.insert_all(keys).well_formed(),
        decreases keys.len(),
    {
        if keys.len() > 0 {
            self.lemma_insert_all_well_formed(keys.drop_last());
            self.insert_all(keys.drop_last()).lemma_insert_keeps(keys.last(), keys.last());
        }
    }

    /// Inserting a key a second time leaves the filter as the first insertion did.
    pub proof fn lemma_insert_idempotent(self, key: Seq<char>)
        requires
            self.well_formed(),
        ensures
            self.insert(key).insert(key) == self.insert(key),
    {
        self.lemma_insert_keeps(key, key);
        let once = self.insert(key);
        lemma_set_probes_when_set(once.bytes, key, once.size, once.key_size);
    }

    /// A newly made filter contains no key, whatever its capacity and rate.
    pub proof fn lemma_fresh_contains_nothing(capacity: nat, num: nat, den: nat, key: Seq<char>)
        requires
            capacity >= 1,
            0 < num < den,
        ensures
            FilterModel::fresh(capacity, num, den).well_formed(),
            !FilterModel::fresh(capacity, num, den).contains(key),
    {
        lemma_sizing_valid(capacity, num, den);
        let size = filter_bits(capacity, num, den);
        FilterModel::lemma_empty_contains_nothing(filter_probes(capacity, size), size, key);
    }

    /// A filter with no bit set contains no key.
    pub proof fn lemma_empty_contains_nothing(key_size: nat, size: nat, key: Seq<char>)
        requires
            key_size >= 1,
            size >= 1,
        ensures
            !FilterModel::empty(key_size, size).contains(key),
    {
        let first: nat = 0;
        let p = probe_position(key, first, size);
        lemma_position_in_range(key, first, size);
        lemma_mask_bits(0, 0, (p % 8) as u32);
        let f = FilterModel::empty(key_size, size);
        assert(f.bytes[(p / 8) as int] == 0u8);
        assert(!is_set(f.bytes, p));
        assert(first < f.key_size);
        if f.contains(key) {
            assert(is_set(f.bytes, probe_position(key, first, f.size)));
        }
    }
}


proof fn lemma_numeral_push(x: Seq<u8>, b: u8)
    ensures
        numeral_value(x + byte_hex_digits(b)) == if b < 16 {
            numeral_value(x) * 16 + b
        } else {
            numeral_value(x) * 256 + b
        },
{
    if b < 16 {
        assert((x + seq![b]).drop_last() =~= x);
    } else {
        let hi = b / 16;
        let lo = b % 16;
        assert((x + seq![hi, lo]).drop_last() =~= x + seq![hi]);
        assert((x + seq![hi]).drop_last() =~= x);
        let v = numeral_value(x);
        assert(numeral_value(x + seq![hi, lo]) == numeral_value(x + seq![hi]) * 16 + lo);
        assert(numeral_value(x + seq![hi]) == v * 16 + hi);
        assert((v * 16 + hi) * 16 + lo == v * 256 + b) by (nonlinear_arith)
            requires
                hi == b / 16,
                lo == b % 16,
        {}
    }
}

proof fn lemma_hex_take(d: Seq<u8>, j: int)
    requires
        0 <= j < d.len(),
    ensures
        hex_numeral(d.take(j + 1)) == hex_numeral(d.take(j)) + byte_hex_digits(d[j]),
{
    assert(d.take(j + 1).drop_last() =~= d.take(j));
}

/// The numeral of a digest has at least one digit per byte.
proof fn lemma_hex_len(d: Seq<u8>)
    ensures
        hex_numeral(d).len() >= d.len(),
    decreases d.len(),
{
    if d.len() > 0 {
        lemma_hex_len(d.drop_last());
    }
}

/// Reading more bytes never makes the number smaller.
proof fn lemma_value_grows(d: Seq<u8>, j: int)
    requires
        0 <= j <= d.len(),
    ensures
        numeral_value(hex_numeral(d.take(j))) <= numeral_value(hex_numeral(d)),
    decreases d.len(),
{
    if j == d.len() {
        assert(d.take(j) =~= d);
    } else {
        let init = d.drop_last();
        lemma_value_grows(init, j);
        assert(init.take(j) =~= d.take(j));
        lemma_numeral_push(hex_numeral(init), d.last());
    }
}

/// The number read from `d` is below 2 to the power of its bit length.
proof fn lemma_value_bound(d: Seq<u8>)
    ensures
        numeral_value(hex_numeral(d)) < pow2(8 * d.len()),
    decreases d.len(),
{
    if d.len() == 0 {
        lemma2_to64();
    } else {
        let init = d.drop_last();
        lemma_value_bound(init);
        lemma_numeral_push(hex_numeral(init), d.last());
        lemma_pow2_adds(8 * init.len(), 8);
        lemma2_to64();
        let v = numeral_value(hex_numeral(init));
        let p = pow2(8 * init.len());
        assert(v * 256 + 255 < p * 256) by (nonlinear_arith)
            requires
                v < p,
        {}
        assert(8 * init.len() + 8 == 8 * d.len());
    }
}

/// A four-byte digest always reads as a `usize`.
proof fn lemma_digest_parses(d: Seq<u8>)
    requires
        d.len() == DIGEST_WIDTH,
    ensures
        parse_numeral(hex_numeral(d)) == Some(numeral_value(hex_numeral(d))),
{
    lemma_value_bound(d);
    lemma_hex_len(d);
    lemma2_to64();
}

/// Reads the hexadecimal rendering of a digest back as a number.
fn numeral_of(digest: &Vec<u8>) -> (r: Option<usize>)
    ensures
        match parse_numeral(hex_numeral(digest@)) {
            Some(v) => r == Some(v as usize),
            None => r is None,
        },
{
    if digest.len() == 0 {
        return None;
    }
    let mut value: usize = 0;
    let mut j: usize = 0;
    while j < digest.len()
        invariant
            j <= digest@.len(),
            value == numeral_value(hex_numeral(digest@.take(j as int))),
        decreases digest@.len() - j,
    {
        let b = digest[j];
        proof {
            lemma_hex_take(digest@, j as int);
            lemma_numeral_push(hex_numeral(digest@.take(j as int)), b);
        }
        let scale: usize = if b < 16 {
            16
        } else {
            256
        };
        let next = match value.checked_mul(scale) {
            Some(x) => x.checked_add(b as usize),
            None => None,
        };
        match next {
            Some(x) => {
                value = x;
            },
            None => {
                proof {
                    lemma_value_grows(digest@, j + 1);
                }
                return None;
            },
        }
        j = j + 1;
    }
    proof {
        assert(digest@.take(j as int) =~= digest@);
        lemma_hex_len(digest@);
    }
    Some(value)
}

/// The bit position that a digest stands for in a field of `size` bits: the
/// digest rendered in hexadecimal, read back as a `usize`, modulo `size`.
/// `None` when the numeral cannot be read.
pub fn probe_from_digest(digest: &Vec<u8>, size: usize) -> (r: Option<usize>)
    requires
        size > 0,
    ensures
        match parse_numeral(hex_numeral(digest@)) {
            Some(v) => r == Some((v % (size as nat)) as usize),
            None => r is None,
        },
{
    match numeral_of(digest) {
        Some(v) => Some(v % size),
        None => None,
    }
}

impl BloomFilter {
    pub open spec fn well_formed(&self) -> bool {
        self@.well_formed()
    }

    /// A filter sized for `capacity` keys at `err_rate`, with no bit set.
    /// Its bit count must fit in a `usize`.
    pub fn new(capacity: usize, err_rate: ErrorRate) -> (r: BloomFilter)
        requires
            capacity > 0,
            filter_bits(capacity as nat, err_rate@.0, err_rate@.1) <= usize::MAX,
        ensures
            r.well_formed(),
            r@ == FilterModel::fresh(capacity as nat, err_rate@.0, err_rate@.1),
    {
        let (bitfield_size, key_size) = filter_size(capacity, &err_rate).unwrap();
        BloomFilter::with_size(bitfield_size, key_size)
    }

    /// A filter of `key_size` probes over `bitfield_size` bits, none of them set.
    pub(crate) fn with_size(bitfield_size: usize, key_size: u32) -> (r: BloomFilter)
        requires
            bitfield_size > 0,
            key_size > 0,
        ensures
            r.well_formed(),
            r@ == FilterModel::empty(key_size as nat, bitfield_size as nat),
    {
        let byte_count: usize = bitfield_size / 8 + if bitfield_size % 8 == 0 {
            0
        } else {
            1
        };
        let mut bitfield: Vec<u8> = Vec::with_capacity(byte_count);
        while bitfield.len() < byte_count
            invariant
                bitfield@.len() <= byte_count,
                forall|i: int| 0 <= i < bitfield@.len() ==> bitfield@[i] == 0u8,
            decreases byte_count - bitfield@.len(),
        {
            bitfield.push(0);
        }
        let r = BloomFilter { key_size, bitfield, bitfield_size };
        assert(r@.bytes =~= FilterModel::empty(key_size as nat, bitfield_size as nat).bytes);
        r
    }

    /// A filter from its stored parts; `MalformedState` unless there is at
    /// least one probe, at least one bit, and exactly the bytes that hold the bits.
    pub fn from_parts(key_size: u32, bitfield: Vec<u8>, bitfield_size: usize) -> (r: Result<
        BloomFilter,
        Error,
    >)
        ensures
            r is Ok <==> (key_size >= 1 && bitfield_size >= 1 && bitfield@.len() == bytes_for(
                bitfield_size as nat,
            )),
            r matches Ok(f) ==> f@ == (FilterModel {
                key_size: key_size as nat,
                size: bitfield_size as nat,
                bytes: bitfield@,
            }),
            r matches Err(e) ==> e == Error::MalformedState,
    {
        let byte_count: usize = bitfield_size / 8 + if bitfield_size % 8 == 0 {
            0
        } else {
            1
        };
        if key_size == 0 || bitfield_size == 0 || bitfield.len() != byte_count {
            return Err(Error::MalformedState);
        }
        Ok(BloomFilter { key_size, bitfield, bitfield_size })
    }

    /// The number of probes per key.
    pub fn key_size(&self) -> (r: u32)
        ensures
            r == self@.key_size,
    {
        self.key_size
    }

    /// The number of bits in the field.
    pub fn bitfield_size(&self) -> (r: usize)
        ensures
            r == self@.size,
    {
        self.bitfield_size
    }

    /// The bit field, eight bits to a byte, lowest bit first.
    pub fn bitfield(&self) -> (r: &[u8])
        ensures
            r@ == self@.bytes,
    {
        self.bitfield.as_slice()
    }

    /// The bit positions of the probes of `key`, in probe order.
    ///
    /// Probe `i` hashes `key` repeated `i + 1` times, renders the digest in
    /// hexadecimal and reads that numeral back, modulo the field length.
    /// The `HashWord` error stands for a numeral that cannot be read; with a
    /// digest of `DIGEST_WIDTH` bytes it does not arise.
    fn hash_positions(&self, key: &str) -> (r: Result<Vec<usize>, Error>)
        requires
            self.well_formed(),
        ensures
            r matches Ok(p) && p@.len() == self@.key_size && forall|i: int|
                0 <= i < p@.len() ==> p@[i] == probe_position(key@, i as nat, self@.size),
    {
        let key_bytes = key.as_bytes();
        let ghost kb = encode_utf8(key@);
        let mut buffer: Vec<u8> = Vec::new();
        let mut positions: Vec<usize> = Vec::new();
        let mut i: u32 = 0;
        while i < self.key_size
            invariant
                self.well_formed(),
                kb == encode_utf8(key@),
                key_bytes@ == kb,
                i <= self.key_size,
                buffer@ == repeat(kb, i as nat),
                positions@.len() == i,
                forall|j: int|
                    0 <= j < i ==> positions@[j] == probe_position(key@, j as nat, self@.size),
            decreases self.key_size - i,
        {
            let ghost before = buffer@;
            let mut t: usize = 0;
            while t < key_bytes.len()
                invariant
                    key_bytes@ == kb,
                    t <= kb.len(),
                    buffer@ == before + kb.take(t as int),
                decreases kb.len() - t,
            {
                buffer.push(key_bytes[t]);
                t = t + 1;
                assert(buffer@ =~= before + kb.take(t as int));
            }
            assert(kb.take(t as int) =~= kb);
            assert(buffer@ == repeat(kb, (i + 1) as nat));
            let digest = blake2b(buffer.as_slice(), DIGEST_WIDTH);
            proof {
                lemma_digest_parses(digest@);
            }
            let position = match probe_from_digest(&digest, self.bitfield_size) {
                Some(p) => p,
                None => {
                    return Err(Error::HashWord);
                },
            };
            assert(digest@ == blake2b_digest(repeat(kb, (i + 1) as nat), DIGEST_WIDTH as nat));
            assert(position == probe_value(key@, i as nat) % (self.bitfield_size as nat));
            positions.push(position);
            i = i + 1;
        }
        Ok(positions)
    }

    /// Sets the bits of every probe of `key`.
    pub fn insert(&mut self, key: &str) -> (r: Result<(), Error>)
        requires
            old(self).well_formed(),
        ensures
            final(self).well_formed(),
            r is Ok,
            final(self)@ == old(self)@.insert(key@),
    {
        let positions = match self.hash_positions(key) {
            Ok(p) => p,
            Err(e) => {
                return Err(e);
            },
        };
        let ghost start = self@;
        let mut j: usize = 0;
        while j < positions.len()
            invariant
                start.well_formed(),
                self@.key_size == start.key_size,
                self@.size == start.size,
                positions@.len() == start.key_size,
                forall|i: int|
                    0 <= i < positions@.len() ==> positions@[i] == probe_position(
                        key@,
                        i as nat,
                        start.size,
                    ),
                j <= positions@.len(),
                self@.bytes == set_probes(start.bytes, key@, start.size, j as nat),
            decreases positions@.len() - j,
        {
            let position = positions[j];
            proof {
                lemma_position_in_range(key@, j as nat, start.size);
                lemma_set_probes(start.bytes, key@, start.size, j as nat, 0);
            }
            let array_index = position / 8;
            let mask: u8 = 1u8 << ((position % 8) as u32);
            self.bitfield[array_index] = self.bitfield[array_index] | mask;
            j = j + 1;
        }
        proof {
            lemma_set_probes(start.bytes, key@, start.size, j as nat, 0);
        }
        Ok(())
    }

    /// Whether every probe bit of `key` is set: always so for a key that was
    /// inserted, and rarely for one that was not.
    pub fn contains(&self, key: &str) -> (r: Result<bool, Error>)
        requires
            self.well_formed(),
        ensures
            r == Ok::<bool, Error>(self@.contains(key@)),
    {
        let positions = match self.hash_positions(key) {
            Ok(p) => p,
            Err(e) => {
                return Err(e);
            },
        };
        let mut j: usize = 0;
        while j < positions.len()
            invariant
                self.well_formed(),
                positions@.len() == self@.key_size,
                forall|i: int|
                    0 <= i < positions@.len() ==> positions@[i] == probe_position(
                        key@,
                        i as nat,
                        self@.size,
                    ),
                j <= positions@.len(),
                forall|i: nat| i < j ==> is_set(self@.bytes, #[trigger] probe_position(key@, i, self@.size)),
            decreases positions@.len() - j,
        {
            let position = positions[j];
            proof {
                lemma_position_in_range(key@, j as nat, self@.size);
            }
            let mask: u8 = 1u8 << ((position % 8) as u32);
            if self.bitfield[position / 8] & mask != mask {
                assert(!is_set(self@.bytes, probe_position(key@, j as nat, self@.size)));
                return Ok(false);
            }
            j = j + 1;
        }
        Ok(true)
    }
}

} // verus!
