//! Type identifiers of resources and assets: a stable 64-bit value, made by
//! hashing the name of a type, written as sixteen hexadecimal digits.

use vstd::prelude::*;
use vstd::string::StringSliceAdditionalSpecFns;
use xxhash_rust::const_xxh3::xxh3_64;

verus! {

/// The xxh3 64-bit hash, with seed 0, of `bytes`.
pub uninterp spec fn xxh3_64_of(bytes: Seq<u8>) -> u64;

/// Calls `xxhash_rust::const_xxh3::xxh3_64`, the xxh3 64-bit hash of its
/// input with seed 0; the result depends on the bytes alone.
#[verifier::external_body]
fn hash_bytes(bytes: &[u8]) -> (r: u64)
    ensures
        r == xxh3_64_of(bytes@),
{
    xxh3_64(bytes)
}

/// Type identifier of a resource or asset.
#[derive(Clone, Copy, PartialEq, Eq, Structural, PartialOrd, Ord, Hash, Default, Debug)]
pub struct ResourceType(u64);

/// Why text is not a resource type.
#[derive(Clone, Copy, Debug, PartialEq, Eq, Structural)]
pub enum ParseResourceTypeError {
    /// The text is empty.
    Empty,
    /// The text holds a character that is not a hexadecimal digit, or is
    /// zero.
    InvalidDigit,
    /// The number does not fit in 64 bits.
    PosOverflow,
}

/// Why bytes are not hexadecimal text.
#[derive(Clone, Copy, Debug, PartialEq, Eq, Structural)]
pub enum HexError {
    /// A character that is not a hexadecimal digit, at `index`.
    InvalidHexCharacter { c: char, index: usize },
    /// An odd number of digits.
    OddLength,
    /// A length that does not fit the decoded value.
    InvalidStringLength,
}

/// The value of a hexadecimal digit, upper or lower case.
pub open spec fn hex_digit_value(c: u8) -> Option<int> {
    if 0x30 <= c <= 0x39 {
        Some(c - 0x30)
    } else if 0x61 <= c <= 0x66 {
        Some(c - 0x61 + 10)
    } else if 0x41 <= c <= 0x46 {
        Some(c - 0x41 + 10)
    } else {
        None
    }
}

/// Reads hexadecimal `digits` after the value `acc`, as an unsigned 64-bit
/// number: the first digit that is not hexadecimal is an invalid digit, and a
/// value past `u64::MAX` an overflow, whichever comes first.
pub open spec fn scan_hex(digits: Seq<u8>, acc: int) -> Result<int, ParseResourceTypeError>
    decreases digits.len(),
{
    if digits.len() == 0 {
        Ok(acc)
    } else {
        match hex_digit_value(digits[0]) {
            None => Err(ParseResourceTypeError::InvalidDigit),
            Some(d) => if acc * 16 + d > u64::MAX {
                Err(ParseResourceTypeError::PosOverflow)
            } else {
                scan_hex(digits.drop_first(), acc * 16 + d)
            },
        }
    }
}

/// Reads `text` as an unsigned 64-bit number in base 16, with an optional
/// leading `+`, the way the standard library's `from_str_radix` does.
pub open spec fn parse_hex_u64(text: Seq<u8>) -> Result<int, ParseResourceTypeError> {
    if text.len() == 0 {
        Err(ParseResourceTypeError::Empty)
    } else if text[0] == 0x2b {
        if text.len() == 1 {
            Err(ParseResourceTypeError::InvalidDigit)
        } else {
            scan_hex(text.drop_first(), 0)
        }
    } else if text[0] == 0x2d && text.len() == 1 {
        Err(ParseResourceTypeError::InvalidDigit)
    } else {
        scan_hex(text, 0)
    }
}

/// The resource type that `text` names: its hexadecimal value, which must
/// not be zero.
pub open spec fn parse_resource_type(text: Seq<u8>) -> Result<u64, ParseResourceTypeError> {
    match parse_hex_u64(text) {
        Ok(v) => if v == 0 {
            Err(ParseResourceTypeError::InvalidDigit)
        } else {
            Ok(v as u64)
        },
        Err(e) => Err(e),
    }
}

proof fn lemma_scan_hex_bounded(digits: Seq<u8>, acc: int)
    requires
        0 <= acc <= u64::MAX,
    ensures
        scan_hex(digits, acc) matches Ok(v) ==> 0 <= v <= u64::MAX,
    decreases digits.len(),
{
    if digits.len() > 0 {
        if let Some(d) = hex_digit_value(digits[0]) {
            if acc * 16 + d <= u64::MAX {
                lemma_scan_hex_bounded(digits.drop_first(), acc * 16 + d);
            }
        }
    }
}

fn hex_digit(c: u8) -> (r: Option<u64>)
    ensures
        match hex_digit_value(c) {
            Some(d) => r == Some(d as u64),
            None => r is None,
        },
{
    if 0x30 <= c && c <= 0x39 {
        Some((c - 0x30) as u64)
    } else if 0x61 <= c && c <= 0x66 {
        Some((c - 0x61 + 10) as u64)
    } else if 0x41 <= c && c <= 0x46 {
        Some((c - 0x41 + 10) as u64)
    } else {
        None
    }
}

/// Reads `text[start..]` as hexadecimal digits.
fn scan_hex_from(text: &[u8], start: usize) -> (r: Result<u64, ParseResourceTypeError>)
    requires
        start <= text@.len(),
    ensures
        match scan_hex(text@.subrange(start as int, text@.len() as int), 0) {
            Ok(v) => r == Ok::<u64, ParseResourceTypeError>(v as u64),
            Err(e) => r == Err::<u64, ParseResourceTypeError>(e),
        },
{
    let ghost whole = text@.subrange(start as int, text@.len() as int);
    let mut acc: u64 = 0;
    let mut i = start;
    proof {
        lemma_scan_hex_bounded(whole, 0);
    }
    while i < text.len()
        invariant
            start <= i <= text@.len(),
            whole == text@.subrange(start as int, text@.len() as int),
            scan_hex(whole, 0) == scan_hex(text@.subrange(i as int, text@.len() as int), acc as int),
        decreases text@.len() - i,
    {
        let ghost rest = text@.subrange(i as int, text@.len() as int);
        assert(rest.drop_first() =~= text@.subrange(i + 1, text@.len() as int));
        match hex_digit(text[i]) {
            None => {
                return Err(ParseResourceTypeError::InvalidDigit);
            },
            Some(d) => {
                if acc > (u64::MAX - d) / 16 {
                    assert(acc * 16 + d > u64::MAX) by (nonlinear_arith)
                        requires
                            acc > (u64::MAX - d) / 16,
                            d < 16,
                    ;
                    return Err(ParseResourceTypeError::PosOverflow);
                }
                assert(acc * 16 + d <= u64::MAX) by (nonlinear_arith)
                    requires
                        acc <= (u64::MAX - d) / 16,
                        d < 16,
                ;
                acc = acc * 16 + d;
            },
        }
        i = i + 1;
    }
    assert(text@.subrange(i as int, text@.len() as int).len() == 0);
    Ok(acc)
}

impl ResourceType {
    /// The 64-bit value of the identifier.
    pub closed spec fn value(self) -> u64 {
        self.0
    }

    /// Creates a type id from a non-zero integer.
    pub fn from_raw(v: u64) -> (r: Self)
        requires
            v != 0,
        ensures
            r.value() == v,
    {
        ResourceType(v)
    }

    /// The 64-bit value of the identifier.
    pub fn raw(self) -> (r: u64)
        ensures
            r == self.value(),
    {
        self.0
    }

    /// Creates a type id from a series of bytes: their xxh3 hash, which must
    /// not be zero.
    pub fn new(v: &[u8]) -> (r: Self)
        requires
            xxh3_64_of(v@) != 0,
        ensures
            r.value() == xxh3_64_of(v@),
    {
        Self::from_raw(hash_bytes(v))
    }

    /// Creates a type id from a series of bytes, or `None` where their hash
    /// is zero (the one value that is no type id).
    pub fn try_new(v: &[u8]) -> (r: Option<Self>)
        ensures
            xxh3_64_of(v@) != 0 ==> (r matches Some(t) && t.value() == xxh3_64_of(v@)),
            xxh3_64_of(v@) == 0 ==> r is None,
    {
        let h = hash_bytes(v);
        if h == 0 {
            None
        } else {
            Some(Self::new(v))
        }
    }

    /// Reads a type id from its hexadecimal text (an optional `+`, then the
    /// digits, upper or lower case); zero is refused as an invalid digit.
    pub fn parse(s: &str) -> (r: Result<Self, ParseResourceTypeError>)
        ensures
            match parse_resource_type(s.spec_bytes()) {
                Ok(v) => r matches Ok(t) && t.value() == v,
                Err(e) => r == Err::<ResourceType, ParseResourceTypeError>(e),
            },
    {
        let text = s.as_bytes();
        if text.len() == 0 {
            return Err(ParseResourceTypeError::Empty);
        }
        let start: usize = if text[0] == 0x2b {
            if text.len() == 1 {
                return Err(ParseResourceTypeError::InvalidDigit);
            }
            1
        } else {
            if text[0] == 0x2d && text.len() == 1 {
                return Err(ParseResourceTypeError::InvalidDigit);
            }
            0
        };
        proof {
            assert(text@.subrange(0, text@.len() as int) =~= text@);
            assert(text@.subrange(1, text@.len() as int) =~= text@.drop_first());
            lemma_scan_hex_bounded(text@.subrange(start as int, text@.len() as int), 0);
        }
        match scan_hex_from(text, start) {
            Ok(v) => {
                if v == 0 {
                    Err(ParseResourceTypeError::InvalidDigit)
                } else {
                    Ok(Self::from_raw(v))
                }
            },
            Err(e) => Err(e),
        }
    }
}

impl std::str::FromStr for ResourceType {
    type Err = ParseResourceTypeError;

    fn from_str(s: &str) -> (r: Result<Self, Self::Err>)
        ensures
            match parse_resource_type(s.spec_bytes()) {
                Ok(v) => r matches Ok(t) && t.value() == v,
                Err(e) => r == Err::<ResourceType, ParseResourceTypeError>(e),
            },
    {
        Self::parse(s)
    }
}

/// The lower-case hexadecimal digit for `n`, from 0 to 15.
pub open spec fn hex_char(n: int) -> char {
    if n < 10 {
        (0x30 + n) as char
    } else {
        (0x61 + n - 10) as char
    }
}

/// The text `hex::encode` makes of `bytes`: two lower-case digits per byte,
/// the high half first.
pub open spec fn hex_encoding(bytes: Seq<u8>) -> Seq<char> {
    Seq::new(
        2 * bytes.len(),
        |i: int|
            if i % 2 == 0 {
                hex_char(bytes[i / 2] as int / 16)
            } else {
                hex_char(bytes[i / 2] as int % 16)
            },
    )
}

/// Whether every byte of `data` is a hexadecimal digit.
pub open spec fn all_hex(data: Seq<u8>) -> bool {
    forall|i: int| 0 <= i < data.len() ==> #[trigger] hex_digit_value(data[i]) is Some
}

/// The value of a hexadecimal digit, 0 for any other byte.
pub open spec fn hex_num(c: u8) -> int {
    match hex_digit_value(c) {
        Some(d) => d,
        None => 0,
    }
}

/// The bytes that hexadecimal `data` stands for, two digits per byte.
pub open spec fn hex_decoding(data: Seq<u8>) -> Seq<u8> {
    Seq::new(data.len() / 2, |i: int| (hex_num(data[2 * i]) * 16 + hex_num(data[2 * i + 1])) as u8)
}

/// The outcome of `hex::decode` on `data`: an odd length first, then the
/// first byte that is no hexadecimal digit, else the decoded bytes.
pub open spec fn hex_decode_outcome(data: Seq<u8>, r: Result<Seq<u8>, HexError>) -> bool {
    if data.len() % 2 == 1 {
        r == Err::<Seq<u8>, HexError>(HexError::OddLength)
    } else if all_hex(data) {
        r == Ok::<Seq<u8>, HexError>(hex_decoding(data))
    } else {
        r matches Err(HexError::InvalidHexCharacter { c, index }) && index < data.len() && hex_digit_value(
            data[index as int],
        ) is None && c == data[index as int] as char && forall|j: int|
            0 <= j < index ==> #[trigger] hex_digit_value(data[j]) is Some
    }
}

/// Calls `hex::encode`: two lower-case hexadecimal digits per byte, the
/// high half first.
#[verifier::external_body]
fn hex_encode(data: &[u8]) -> (r: String)
    ensures
        r@ == hex_encoding(data@),
{
    hex::encode(data)
}

/// Calls `hex::decode`: an odd length is refused first, then the first byte
/// that is no hexadecimal digit (upper or lower case), with its index;
/// otherwise each pair of digits gives one byte. Its error is turned into
/// the library's own, variant for variant.
#[verifier::external_body]
fn hex_decode(data: &[u8]) -> (r: Result<Vec<u8>, HexError>)
    ensures
        hex_decode_outcome(
            data@,
            match r {
                Ok(v) => Ok(v@),
                Err(e) => Err(e),
            },
        ),
{
    match hex::decode(data) {
        Ok(v) => Ok(v),
        Err(hex::FromHexError::InvalidHexCharacter { c, index }) => Err(
            HexError::InvalidHexCharacter { c, index },
        ),
        Err(hex::FromHexError::OddLength) => Err(HexError::OddLength),
        Err(hex::FromHexError::InvalidStringLength) => Err(HexError::InvalidStringLength),
    }
}

/// The `n` big-endian bytes of `v`, most significant first.
pub open spec fn be_bytes(v: nat, n: nat) -> Seq<u8>
    decreases n,
{
    if n == 0 {
        Seq::empty()
    } else {
        be_bytes(v / 256, (n - 1) as nat).push((v % 256) as u8)
    }
}

/// The number that big-endian `bytes` stand for.
pub open spec fn be_value(bytes: Seq<u8>) -> nat
    decreases bytes.len(),
{
    if bytes.len() == 0 {
        0
    } else {
        be_value(bytes.drop_last()) * 256 + bytes.last() as nat
    }
}

pub open spec fn pow256(n: nat) -> nat
    decreases n,
{
    if n == 0 {
        1
    } else {
        256 * pow256((n - 1) as nat)
    }
}

proof fn lemma_be_value_bound(bytes: Seq<u8>)
    ensures
        be_value(bytes) < pow256(bytes.len()),
    decreases bytes.len(),
{
    if bytes.len() > 0 {
        lemma_be_value_bound(bytes.drop_last());
        let p = pow256((bytes.len() - 1) as nat);
        let b = be_value(bytes.drop_last());
        assert(b * 256 + bytes.last() < p * 256) by (nonlinear_arith)
            requires
                b < p,
                bytes.last() < 256,
        ;
    }
}

proof fn lemma_be_roundtrip(v: nat, n: nat)
    requires
        v < pow256(n),
    ensures
        be_value(be_bytes(v, n)) == v,
        be_bytes(v, n).len() == n,
    decreases n,
{
    if n > 0 {
        let p = pow256((n - 1) as nat);
        assert(v / 256 < p) by (nonlinear_arith)
            requires
                v < 256 * p,
        ;
        lemma_be_roundtrip(v / 256, (n - 1) as nat);
        let s = be_bytes(v, n);
        assert(s.drop_last() =~= be_bytes(v / 256, (n - 1) as nat));
    }
}

fn be_bytes_of(v: u64, n: usize) -> (r: Vec<u8>)
    ensures
        r@ == be_bytes(v as nat, n as nat),
    decreases n,
{
    if n == 0 {
        Vec::new()
    } else {
        let mut r = be_bytes_of(v / 256, n - 1);
        r.push((v % 256) as u8);
        r
    }
}

fn be_value_of(bytes: &Vec<u8>) -> (r: u64)
    requires
        bytes@.len() <= 8,
    ensures
        r == be_value(bytes@),
{
    let mut acc: u64 = 0;
    let mut i: usize = 0;
    while i < bytes.len()
        invariant
            i <= bytes@.len() <= 8,
            acc == be_value(bytes@.take(i as int)),
        decreases bytes@.len() - i,
    {
        proof {
            let t = bytes@.take(i + 1);
            assert(t.drop_last() =~= bytes@.take(i as int));
            lemma_be_value_bound(bytes@.take(i as int));
            assert(pow256(7) == 72057594037927936nat) by {
                reveal_with_fuel(pow256, 8);
            }
            assert(pow256(i as nat) <= pow256(7)) by {
                lemma_pow256_monotone(i as nat, 7);
            }
            assert(acc * 256 + bytes@[i as int] <= u64::MAX) by (nonlinear_arith)
                requires
                    acc < 72057594037927936,
                    bytes@[i as int] < 256,
            ;
        }
        acc = acc * 256 + bytes[i] as u64;
        i = i + 1;
    }
    proof {
        assert(bytes@.take(i as int) =~= bytes@);
    }
    acc
}

proof fn lemma_pow256_monotone(a: nat, b: nat)
    requires
        a <= b,
    ensures
        pow256(a) <= pow256(b),
    decreases b,
{
    if a < b {
        lemma_pow256_monotone(a, (b - 1) as nat);
    }
}

impl ResourceType {
    /// The identifier as sixteen lower-case hexadecimal digits, the most
    /// significant first: how it is displayed, and how it is written where a
    /// format is meant to be read by people.
    pub fn to_hex_string(self) -> (r: String)
        ensures
            r@ == hex_encoding(be_bytes(self.value() as nat, 8)),
            r@ == hex_digits(self.value() as nat, 16),
    {
        let bytes = be_bytes_of(self.0, 8);
        proof {
            lemma_hex_encoding_digits(self.0 as nat, 8);
        }
        hex_encode(bytes.as_slice())
    }

    /// Reads an identifier written by `to_hex_string`. Text that is not
    /// hexadecimal is refused as `hex::decode` refuses it; hexadecimal text
    /// must be sixteen digits of a non-zero value.
    pub fn from_hex(hex: &[u8]) -> (r: Result<Self, HexError>)
        requires
            hex@.len() % 2 == 0 && all_hex(hex@) ==> hex@.len() == 16 && be_value(hex_decoding(hex@)) != 0,
        ensures
            hex@.len() % 2 == 0 && all_hex(hex@) ==> (r matches Ok(t) && t.value() == be_value(
                hex_decoding(hex@),
            )),
            !(hex@.len() % 2 == 0 && all_hex(hex@)) ==> (r matches Err(e) && hex_decode_outcome(
                hex@,
                Err(e),
            )),
    {
        match hex_decode(hex) {
            Ok(digits) => {
                let v = be_value_of(&digits);
                Ok(Self::from_raw(v))
            },
            Err(e) => Err(e),
        }
    }
}

/// Reading back what `to_hex_string` writes gives the identifier again:
/// the text is sixteen hexadecimal digits whose bytes stand for the value.
pub proof fn lemma_hex_roundtrip(v: u64)
    ensures
        ({
            let text = hex_encoding(be_bytes(v as nat, 8)).map_values(|c: char| c as u8);
            &&& text.len() == 16
            &&& all_hex(text)
            &&& be_value(hex_decoding(text)) == v
        }),
{
    assert(pow256(8) == 0x1_0000_0000_0000_0000nat) by {
        reveal_with_fuel(pow256, 9);
    }
    lemma_be_roundtrip(v as nat, 8);
    let b = be_bytes(v as nat, 8);
    let text = hex_encoding(b).map_values(|c: char| c as u8);
    assert forall|i: int| 0 <= i < text.len() implies #[trigger] hex_digit_value(text[i]) is Some
        && hex_num(text[i]) == if i % 2 == 0 { b[i / 2] as int / 16 } else { b[i / 2] as int % 16 } by {
        let n: int = if i % 2 == 0 { b[i / 2] as int / 16 } else { b[i / 2] as int % 16 };
        assert(0 <= n < 16);
        assert(text[i] == hex_char(n) as u8);
    }
    assert(hex_decoding(text) =~= b) by {
        assert forall|i: int| 0 <= i < b.len() implies #[trigger] hex_decoding(text)[i] == b[i] by {
            assert(hex_num(text[2 * i]) == b[i] as int / 16);
            assert(hex_num(text[2 * i + 1]) == b[i] as int % 16);
        }
    }
}

/// What is registered for a resource type: its name, and what makes a new
/// instance of it.
pub struct ResourceTypeEntry<F> {
    pub name: String,
    pub new_instance: F,
}

/// The resource types known to the process, each with its entry.
pub struct ResourceTypeRegistry<F> {
    entries: Vec<(ResourceType, ResourceTypeEntry<F>)>,
}

impl<F> ResourceTypeRegistry<F> {
    #[verifier::type_invariant]
    spec fn keys_unique(self) -> bool {
        forall|i: int, j: int|
            0 <= i < j < self.entries@.len() ==> (#[trigger] self.entries@[i]).0 != (#[trigger] self.entries@[j]).0
    }

    /// The position of `t` among the entries.
    spec fn position(self, t: ResourceType) -> int {
        choose|i: int| 0 <= i < self.entries@.len() && self.entries@[i].0 == t
    }

    /// The name registered for each resource type.
    pub closed spec fn names(self) -> Map<ResourceType, Seq<char>> {
        Map::new(
            |t: ResourceType| exists|i: int| 0 <= i < self.entries@.len() && self.entries@[i].0 == t,
            |t: ResourceType| self.entries@[self.position(t)].1.name@,
        )
    }

    /// What makes a new instance of each resource type.
    pub closed spec fn constructors(self) -> Map<ResourceType, F> {
        Map::new(
            |t: ResourceType| exists|i: int| 0 <= i < self.entries@.len() && self.entries@[i].0 == t,
            |t: ResourceType| self.entries@[self.position(t)].1.new_instance,
        )
    }

    /// An empty registry.
    pub fn new() -> (r: Self)
        ensures
            r.names() == Map::<ResourceType, Seq<char>>::empty(),
            r.constructors() == Map::<ResourceType, F>::empty(),
    {
        let r = ResourceTypeRegistry { entries: Vec::new() };
        assert(r.names() =~= Map::<ResourceType, Seq<char>>::empty());
        assert(r.constructors() =~= Map::<ResourceType, F>::empty());
        r
    }

    fn find(&self, id: ResourceType) -> (r: Option<usize>)
        ensures
            r matches Some(i) ==> i < self.entries@.len() && self.entries@[i as int].0 == id && i == self.position(id),
            r is None ==> !self.names().dom().contains(id),
    {
        proof {
            use_type_invariant(self);
        }
        let mut i: usize = 0;
        while i < self.entries.len()
            invariant
                i <= self.entries@.len(),
                forall|k: int| 0 <= k < i ==> self.entries@[k].0 != id,
                forall|a: int, b: int|
                    0 <= a < b < self.entries@.len() ==> (#[trigger] self.entries@[a]).0 != (#[trigger] self.entries@[b]).0,
            decreases self.entries@.len() - i,
        {
            if self.entries[i].0 == id {
                proof {
                    assert(self.entries@[i as int].0 == id);
                    let p = self.position(id);
                    assert(self.entries@[p].0 == id);
                }
                return Some(i);
            }
            i = i + 1;
        }
        None
    }

    /// Registers `entry` for `id`, in place of any entry it had.
    pub fn register_type(&mut self, id: ResourceType, entry: ResourceTypeEntry<F>)
        ensures
            final(self).names() == old(self).names().insert(id, entry.name@),
            final(self).constructors() == old(self).constructors().insert(id, entry.new_instance),
    {
        proof {
            use_type_invariant(&*self);
        }
        let ghost old_names = self.names();
        let ghost old_ctors = self.constructors();
        let ghost name = entry.name@;
        let ghost ctor = entry.new_instance;
        let ghost before = self.entries@;
        let found = self.find(id);
        let mut entries: Vec<(ResourceType, ResourceTypeEntry<F>)> = Vec::new();
        std::mem::swap(&mut entries, &mut self.entries);
        match found {
            Some(i) => {
                entries.set(i, (id, entry));
            },
            None => {
                entries.push((id, entry));
            },
        }
        proof {
            let e = entries@;
            assert forall|a: int, b: int| 0 <= a < b < e.len() implies (#[trigger] e[a]).0 != (#[trigger] e[b]).0 by {
                if b == before.len() {
                    assert(e[a] == before[a]);
                } else if found is Some {
                    assert(e[a].0 == before[a].0);
                    assert(e[b].0 == before[b].0);
                } else {
                    assert(e[a] == before[a]);
                    assert(e[b] == before[b]);
                }
            }
        }
        self.entries = entries;
        proof {
            use_type_invariant(&*self);
            let e = self.entries@;
            assert forall|t: ResourceType| #[trigger] self.names().dom().contains(t) <==> old_names.insert(id, name).dom().contains(t) by {
                if t != id && self.names().dom().contains(t) {
                    let i = choose|i: int| 0 <= i < e.len() && e[i].0 == t;
                    assert(old(self).entries@[i].0 == t);
                }
                if t != id && old_names.dom().contains(t) {
                    let i = choose|i: int| 0 <= i < old(self).entries@.len() && old(self).entries@[i].0 == t;
                    assert(e[i].0 == t);
                }
                if t == id {
                    match found {
                        Some(i) => {
                            assert(e[i as int].0 == t);
                        },
                        None => {
                            assert(e[e.len() - 1].0 == t);
                        },
                    }
                }
            }
            assert forall|t: ResourceType| #[trigger] self.names().dom().contains(t) implies self.names()[t] == old_names.insert(id, name)[t] by {
                let p = self.position(t);
                assert(e[p].0 == t);
                if t != id {
                    let q = old(self).position(t);
                    assert(old(self).entries@[q].0 == t);
                    assert(e[q].0 == t);
                    assert(p == q);
                }
            }
            assert(self.names() =~= old_names.insert(id, name));
            assert forall|t: ResourceType| #[trigger] self.constructors().dom().contains(t) implies self.constructors()[t] == old_ctors.insert(id, ctor)[t] by {
                let p = self.position(t);
                assert(e[p].0 == t);
                if t != id {
                    let q = old(self).position(t);
                    assert(old(self).entries@[q].0 == t);
                    assert(e[q].0 == t);
                    assert(p == q);
                }
            }
            assert(self.constructors().dom() =~= self.names().dom());
            assert(old_ctors.dom() =~= old_names.dom());
            assert(self.constructors() =~= old_ctors.insert(id, ctor));
        }
    }

    /// The registered types with their names, each once.
    pub fn get_resource_types(&self) -> (r: Vec<(ResourceType, String)>)
        ensures
            forall|i: int, j: int| 0 <= i < j < r@.len() ==> (#[trigger] r@[i]).0 != (#[trigger] r@[j]).0,
            forall|i: int| 0 <= i < r@.len() ==> self.names().dom().contains((#[trigger] r@[i]).0)
                && self.names()[r@[i].0] == r@[i].1@,
            forall|t: ResourceType| #[trigger] self.names().dom().contains(t) ==> exists|i: int| 0 <= i < r@.len() && r@[i].0 == t,
    {
        proof {
            use_type_invariant(self);
        }
        let mut r: Vec<(ResourceType, String)> = Vec::new();
        let mut i: usize = 0;
        while i < self.entries.len()
            invariant
                i <= self.entries@.len(),
                r@.len() == i,
                forall|a: int, b: int|
                    0 <= a < b < self.entries@.len() ==> (#[trigger] self.entries@[a]).0 != (#[trigger] self.entries@[b]).0,
                forall|k: int| 0 <= k < i ==> (#[trigger] r@[k]).0 == self.entries@[k].0 && r@[k].1@ == self.entries@[k].1.name@,
            decreases self.entries@.len() - i,
        {
            let entry = &self.entries[i];
            r.push((entry.0, entry.1.name.clone()));
            i = i + 1;
        }
        proof {
            assert forall|k: int| 0 <= k < r@.len() implies self.names().dom().contains((#[trigger] r@[k]).0)
                && self.names()[r@[k].0] == r@[k].1@ by {
                let t = r@[k].0;
                assert(self.entries@[k].0 == t);
                let p = self.position(t);
                assert(self.entries@[p].0 == t);
                assert(p == k);
            }
            assert forall|t: ResourceType| #[trigger] self.names().dom().contains(t) implies exists|k: int| 0 <= k < r@.len() && r@[k].0 == t by {
                let k = choose|k: int| 0 <= k < self.entries@.len() && self.entries@[k].0 == t;
                assert(r@[k].0 == t);
            }
        }
        r
    }
}

impl ResourceType {
    /// The name registered for this type, or `unknown`.
    pub fn as_pretty<F>(self, registry: &ResourceTypeRegistry<F>) -> (r: String)
        ensures
            registry.names().dom().contains(self) ==> r@ == registry.names()[self],
            !registry.names().dom().contains(self) ==> r@ == "unknown"@,
    {
        match registry.find(self) {
            Some(i) => registry.entries[i].1.name.clone(),
            None => String::from_str("unknown"),
        }
    }

    /// What makes a new instance of this type; the type must be registered.
    pub fn new_instance<F>(self, registry: &ResourceTypeRegistry<F>) -> (r: &F)
        requires
            registry.names().dom().contains(self),
        ensures
            *r == registry.constructors()[self],
    {
        match registry.find(self) {
            Some(i) => &registry.entries[i].1.new_instance,
            None => {
                proof {
                    assert(false);
                }
                &registry.entries[0].1.new_instance
            },
        }
    }
}

/// The bytes of text made of ASCII characters.
pub open spec fn ascii_bytes(s: Seq<char>) -> Seq<u8> {
    s.map_values(|c: char| c as u8)
}

/// The value of hexadecimal digits read from the left after `acc`.
pub open spec fn hex_fold(t: Seq<u8>, acc: int) -> int
    decreases t.len(),
{
    if t.len() == 0 {
        acc
    } else {
        hex_fold(t.drop_first(), acc * 16 + hex_num(t[0]))
    }
}

proof fn lemma_hex_fold_ge(t: Seq<u8>, acc: int)
    requires
        acc >= 0,
        all_hex(t),
    ensures
        hex_fold(t, acc) >= acc,
    decreases t.len(),
{
    if t.len() > 0 {
        assert(hex_digit_value(t[0]) is Some);
        assert(all_hex(t.drop_first())) by {
            assert forall|i: int| 0 <= i < t.drop_first().len() implies #[trigger] hex_digit_value(t.drop_first()[i]) is Some by {
                assert(t.drop_first()[i] == t[i + 1]);
                assert(hex_digit_value(t[i + 1]) is Some);
            }
        }
        lemma_hex_fold_ge(t.drop_first(), acc * 16 + hex_num(t[0]));
    }
}

proof fn lemma_scan_is_fold(t: Seq<u8>, acc: int)
    requires
        all_hex(t),
        0 <= acc,
        hex_fold(t, acc) <= u64::MAX,
    ensures
        scan_hex(t, acc) == Ok::<int, ParseResourceTypeError>(hex_fold(t, acc)),
    decreases t.len(),
{
    if t.len() > 0 {
        assert(hex_digit_value(t[0]) is Some);
        let next = acc * 16 + hex_num(t[0]);
        assert(all_hex(t.drop_first())) by {
            assert forall|i: int| 0 <= i < t.drop_first().len() implies #[trigger] hex_digit_value(t.drop_first()[i]) is Some by {
                assert(t.drop_first()[i] == t[i + 1]);
                assert(hex_digit_value(t[i + 1]) is Some);
            }
        }
        lemma_hex_fold_ge(t.drop_first(), next);
        lemma_scan_is_fold(t.drop_first(), next);
    }
}

proof fn lemma_hex_fold_concat(t1: Seq<u8>, t2: Seq<u8>, acc: int)
    ensures
        hex_fold(t1 + t2, acc) == hex_fold(t2, hex_fold(t1, acc)),
    decreases t1.len(),
{
    if t1.len() > 0 {
        assert((t1 + t2).drop_first() =~= t1.drop_first() + t2);
        lemma_hex_fold_concat(t1.drop_first(), t2, acc * 16 + hex_num(t1[0]));
    } else {
        assert(t1 + t2 =~= t2);
    }
}

proof fn lemma_hex_text_digits(b: Seq<u8>)
    ensures
        ascii_bytes(hex_encoding(b)).len() == 2 * b.len(),
        all_hex(ascii_bytes(hex_encoding(b))),
        forall|i: int|
            0 <= i < 2 * b.len() ==> #[trigger] hex_num(ascii_bytes(hex_encoding(b))[i]) == if i % 2 == 0 {
                b[i / 2] as int / 16
            } else {
                b[i / 2] as int % 16
            },
{
    let text = ascii_bytes(hex_encoding(b));
    assert forall|i: int| 0 <= i < text.len() implies #[trigger] hex_digit_value(text[i]) is Some && hex_num(text[i])
        == if i % 2 == 0 { b[i / 2] as int / 16 } else { b[i / 2] as int % 16 } by {
        let n: int = if i % 2 == 0 { b[i / 2] as int / 16 } else { b[i / 2] as int % 16 };
        assert(0 <= n < 16);
        assert(text[i] == hex_char(n) as u8);
    }
}

proof fn lemma_hex_fold_bytes(b: Seq<u8>)
    ensures
        hex_fold(ascii_bytes(hex_encoding(b)), 0) == be_value(b),
    decreases b.len(),
{
    if b.len() > 0 {
        let init = b.drop_last();
        let t = ascii_bytes(hex_encoding(b));
        let t0 = ascii_bytes(hex_encoding(init));
        let n = t.len();
        lemma_hex_text_digits(b);
        lemma_hex_text_digits(init);
        let tail = t.subrange(n - 2, n as int);
        assert(t =~= t0 + tail) by {
            assert forall|i: int| 0 <= i < t0.len() implies t[i] == t0[i] by {
                assert(i / 2 < init.len());
                assert(init[i / 2] == b[i / 2]);
            }
        }
        lemma_hex_fold_concat(t0, tail, 0);
        lemma_hex_fold_bytes(init);
        let x = b.last();
        assert(hex_num(tail[0]) == x as int / 16);
        assert(hex_num(tail[1]) == x as int % 16);
        assert(tail.drop_first().drop_first().len() == 0);
        let v = be_value(init) as int;
        let a1 = v * 16 + hex_num(tail[0]);
        assert(tail.drop_first()[0] == tail[1]);
        assert(hex_fold(tail.drop_first().drop_first(), a1 * 16 + hex_num(tail[1])) == a1 * 16 + hex_num(tail[1]));
        assert(hex_fold(tail.drop_first(), a1) == hex_fold(tail.drop_first().drop_first(), a1 * 16 + hex_num(tail[1])));
        assert(hex_fold(tail, v) == hex_fold(tail.drop_first(), a1));
        assert(hex_fold(tail, v) == (v * 16 + x as int / 16) * 16 + x as int % 16);
        assert((v * 16 + x as int / 16) * 16 + x as int % 16 == v * 256 + x) by (nonlinear_arith)
            requires
                0 <= x < 256,
        ;
    } else {
        assert(hex_encoding(b).len() == 0);
        assert(ascii_bytes(hex_encoding(b)).len() == 0);
    }
}

/// The text an identifier is displayed as reads back as the same
/// identifier.
pub proof fn lemma_display_parse_roundtrip(v: u64)
    requires
        v != 0,
    ensures
        parse_resource_type(ascii_bytes(hex_encoding(be_bytes(v as nat, 8)))) == Ok::<u64, ParseResourceTypeError>(v),
{
    assert(pow256(8) == 0x1_0000_0000_0000_0000nat) by {
        reveal_with_fuel(pow256, 9);
    }
    lemma_be_roundtrip(v as nat, 8);
    let b = be_bytes(v as nat, 8);
    let t = ascii_bytes(hex_encoding(b));
    lemma_hex_text_digits(b);
    lemma_hex_fold_bytes(b);
    lemma_scan_is_fold(t, 0);
    assert(t[0] != 0x2b && t[0] != 0x2d) by {
        assert(hex_digit_value(t[0]) is Some);
    }
}

/// Two identifiers with the same value are the same identifier.
pub proof fn lemma_value_determines(a: ResourceType, b: ResourceType)
    ensures
        a.value() == b.value() <==> a == b,
{
}

/// Parsing the text that `to_hex_string` writes for an identifier gives
/// back that identifier.
pub proof fn lemma_text_parse_roundtrip(t: ResourceType, s: &str)
    requires
        t.value() != 0,
        s@ == hex_encoding(be_bytes(t.value() as nat, 8)),
    ensures
        parse_resource_type(s.spec_bytes()) == Ok::<u64, ParseResourceTypeError>(t.value()),
{
    assert(vstd::utf8::is_ascii_chars(s@)) by {
        assert forall|i: int| 0 <= i < s@.len() implies '\0' <= #[trigger] s@[i] <= '\u{7f}' by {
            let b = be_bytes(t.value() as nat, 8);
            let n: int = if i % 2 == 0 { b[i / 2] as int / 16 } else { b[i / 2] as int % 16 };
            assert(0 <= n < 16);
            assert(s@[i] == hex_char(n));
        }
    }
    vstd::string::is_ascii_spec_bytes(s);
    assert(s.spec_bytes() =~= ascii_bytes(s@));
    lemma_display_parse_roundtrip(t.value());
}

/// The `width` lowest hexadecimal digits of `v`, in lower case, the most
/// significant first: what `{:0width$x}` writes of a number below
/// `16^width`.
pub open spec fn hex_digits(v: nat, width: nat) -> Seq<char>
    decreases width,
{
    if width == 0 {
        Seq::empty()
    } else {
        hex_digits(v / 16, (width - 1) as nat).push(hex_char((v % 16) as int))
    }
}

proof fn lemma_hex_encoding_push(b: Seq<u8>, x: u8)
    ensures
        hex_encoding(b.push(x)) == hex_encoding(b).push(hex_char(x as int / 16)).push(hex_char(x as int % 16)),
{
    assert(hex_encoding(b.push(x)) =~= hex_encoding(b).push(hex_char(x as int / 16)).push(hex_char(x as int % 16)));
}

/// The hexadecimal text of the big-endian bytes of `v` is the `2n` lowest
/// hexadecimal digits of `v`.
proof fn lemma_hex_encoding_digits(v: nat, n: nat)
    ensures
        hex_encoding(be_bytes(v, n)) == hex_digits(v, 2 * n),
    decreases n,
{
    if n == 0 {
        assert(hex_encoding(be_bytes(v, 0)) =~= Seq::<char>::empty());
    } else {
        lemma_hex_encoding_digits(v / 256, (n - 1) as nat);
        let x = (v % 256) as u8;
        lemma_hex_encoding_push(be_bytes(v / 256, (n - 1) as nat), x);
        assert(v / 16 / 16 == v / 256 && (v % 256) / 16 == (v / 16) % 16 && (v % 256) % 16 == v % 16)
            by (nonlinear_arith)
            requires
                v >= 0,
        ;
        assert(hex_digits(v, 2 * n) == hex_digits(v / 16, (2 * n - 1) as nat).push(hex_char((v % 16) as int)));
        assert(hex_digits(v / 16, (2 * n - 1) as nat) == hex_digits(v / 16 / 16, (2 * n - 2) as nat).push(
            hex_char(((v / 16) % 16) as int),
        ));
        assert((2 * n - 2) as nat == 2 * ((n - 1) as nat));
    }
}

/// An identifier made from a value keeps that value; identifiers are equal
/// exactly when their values are; and the text it is displayed as is the
/// sixteen lower-case hexadecimal digits of its value, as `{:016x}` writes
/// it.
pub proof fn lemma_from_raw_law(t: ResourceType, u: ResourceType)
    ensures
        t == u <==> t.value() == u.value(),
        hex_encoding(be_bytes(t.value() as nat, 8)) == hex_digits(t.value() as nat, 16),
{
    lemma_value_determines(t, u);
    lemma_hex_encoding_digits(t.value() as nat, 8);
}

/// Parsing the text of an identifier, with the result `parse` and `from_str`
/// promise on it, gives back that same identifier.
pub proof fn lemma_to_string_parse(t: ResourceType, s: &str, r: Result<ResourceType, ParseResourceTypeError>)
    requires
        t.value() != 0,
        s@ == hex_digits(t.value() as nat, 16),
        match parse_resource_type(s.spec_bytes()) {
            Ok(v) => r matches Ok(t2) && t2.value() == v,
            Err(e) => r == Err::<ResourceType, ParseResourceTypeError>(e),
        },
    ensures
        r == Ok::<ResourceType, ParseResourceTypeError>(t),
{
    lemma_hex_encoding_digits(t.value() as nat, 8);
    lemma_text_parse_roundtrip(t, s);
    if let Ok(t2) = r {
        lemma_value_determines(t, t2);
    }
}

} // verus!
