//! Key-value stores that programs reach through helper calls.
//!
//! [`MapDesc`] is the static description of a map and [`MapStore`] its
//! runtime storage: an unordered map, an array of slots, or an unordered map
//! that evicts its least recently used key at capacity.
use vstd::prelude::*;
use vstd::slice::slice_to_vec;
use vstd::string::{StringExecFns, StringSliceAdditionalSpecFns};

use crate::bytes::{le_word, lemma_pow256_values, lemma_word_bound, read_le};
use crate::text::{int_text, nat_text, push_int, push_nat};

verus! {

/// Largest descriptor number that a map table holds.
pub const MAX_MAP_FD: i64 = 0xffff;

/// Kind of a map.
#[derive(Debug, Clone, Copy, PartialEq, Eq, Hash, Structural)]
pub enum MapType {
    /// Unordered key-value map.
    Hash,
    /// Fixed-size array addressed by index (keys have 4 bytes).
    Array,
    /// Unordered map that evicts the least recently used key at capacity.
    LruArray,
}

impl MapType {
    /// Lower-case name.
    pub open spec fn display(self) -> Seq<char> {
        match self {
            MapType::Hash => "hash"@,
            MapType::Array => "array"@,
            MapType::LruArray => "lru_array"@,
        }
    }

    /// Renders the lower-case name.
    pub fn to_string(&self) -> (s: String)
        ensures
            s@ == self.display(),
    {
        match self {
            MapType::Hash => String::from_str("hash"),
            MapType::Array => String::from_str("array"),
            MapType::LruArray => String::from_str("lru_array"),
        }
    }
}

/// Key-value pairs, in order.
pub type Pairs = Seq<(Seq<u8>, Seq<u8>)>;

/// The pairs that a vector holds.
pub open spec fn pairs_of(data: Seq<(Vec<u8>, Vec<u8>)>) -> Pairs {
    data.map_values(|e: (Vec<u8>, Vec<u8>)| (e.0@, e.1@))
}

/// Whether a key occurs.
pub open spec fn has_key(s: Pairs, key: Seq<u8>) -> bool {
    exists|i: int| 0 <= i < s.len() && #[trigger] s[i].0 == key
}

/// Whether no key occurs twice.
pub open spec fn distinct(s: Pairs) -> bool {
    forall|i: int, j: int| 0 <= i < j < s.len() ==> #[trigger] s[i].0 != #[trigger] s[j].0
}

/// Whether one key comes before another: it is a proper prefix of it, or has
/// the smaller byte where the two first differ.
pub open spec fn key_below(a: Seq<u8>, b: Seq<u8>) -> bool {
    exists|n: int|
        {
            &&& 0 <= n <= a.len()
            &&& n < b.len()
            &&& #[trigger] a.take(n) == b.take(n)
            &&& n < a.len() ==> a[n] < b[n]
        }
}

/// Whether the keys stand in ascending order.
pub open spec fn ascending(s: Pairs) -> bool {
    forall|i: int, j: int| 0 <= i < j < s.len() ==> key_below(#[trigger] s[i].0, #[trigger] s[j].0)
}

/// No key occurs twice where they ascend.
proof fn lemma_ascending_distinct(s: Pairs)
    requires
        ascending(s),
    ensures
        distinct(s),
{
    assert forall|i: int, j: int| 0 <= i < j < s.len() implies #[trigger] s[i].0 != #[trigger] s[j].0 by {
        assert(key_below(s[i].0, s[j].0));
    }
}

/// The position of a key that occurs.
pub open spec fn index_of(s: Pairs, key: Seq<u8>) -> int {
    choose|i: int| 0 <= i < s.len() && #[trigger] s[i].0 == key
}

/// Pairs as a mathematical map.
pub open spec fn as_map(s: Pairs) -> Map<Seq<u8>, Seq<u8>> {
    Map::new(|k: Seq<u8>| has_key(s, k), |k: Seq<u8>| s[index_of(s, k)].1)
}

/// Static map description.
#[derive(Debug, Clone, PartialEq, Eq)]
pub struct MapDesc {
    /// Descriptor number that the program passes in `r1`.
    pub fd: i64,
    /// Kind of the map.
    pub map_type: MapType,
    /// Key width in bytes (4 for arrays).
    pub key_size: usize,
    /// Value width in bytes.
    pub value_size: usize,
    /// Capacity: entries of a hash, slots of an array.
    pub max_entries: usize,
    /// Entries present at the start, ascending by key: the order in which
    /// they are loaded.
    pub initial: Vec<(Vec<u8>, Vec<u8>)>,
}

/// Contents of a [`MapDesc`].
#[verifier::ext_equal]
pub struct DescModel {
    /// Descriptor number.
    pub fd: i64,
    /// Kind of the map.
    pub map_type: MapType,
    /// Key width.
    pub key_size: usize,
    /// Value width.
    pub value_size: usize,
    /// Capacity.
    pub max_entries: usize,
    /// Initial entries.
    pub initial: Pairs,
}

impl View for MapDesc {
    type V = DescModel;

    open spec fn view(&self) -> DescModel {
        DescModel {
            fd: self.fd,
            map_type: self.map_type,
            key_size: self.key_size,
            value_size: self.value_size,
            max_entries: self.max_entries,
            initial: pairs_of(self.initial@),
        }
    }
}

impl DescModel {
    /// One-line form.
    pub open spec fn display(self) -> Seq<char> {
        "fd "@ + int_text(self.fd as int) + " ("@ + self.map_type.display() + ": "@ + nat_text(
            self.key_size as nat,
        ) + "B keys, "@ + nat_text(self.value_size as nat) + "B values, cap "@ + nat_text(
            self.max_entries as nat,
        ) + ")"@
    }

    /// The array slots after the initial entries from index `i` on.
    pub open spec fn fill_slots(self, slots: Seq<Seq<u8>>, i: nat) -> Seq<Seq<u8>>
        decreases self.initial.len() - i,
    {
        if i >= self.initial.len() {
            slots
        } else {
            let (k, v) = self.initial[i as int];
            self.fill_slots(slots.update(slot_of(k) as int, v), i + 1)
        }
    }

    /// The first width mismatch among the initial entries from `i` on.
    pub open spec fn width_error(self, i: nat) -> Option<MapErrorModel>
        decreases self.initial.len() - i,
    {
        if i >= self.initial.len() {
            None
        } else {
            let (k, v) = self.initial[i as int];
            if k.len() != self.key_size {
                Some(
                    MapErrorModel::KeySizeMismatch {
                        expected: self.key_size,
                        got: k.len() as usize,
                    },
                )
            } else if v.len() != self.value_size {
                Some(
                    MapErrorModel::ValueSizeMismatch {
                        expected: self.value_size,
                        got: v.len() as usize,
                    },
                )
            } else {
                self.width_error(i + 1)
            }
        }
    }

    /// Whether some initial entry of an array has no slot.
    pub open spec fn slot_error(self) -> bool {
        exists|i: int|
            0 <= i < self.initial.len() && slot_of(#[trigger] self.initial[i].0)
                >= self.max_entries
    }

    /// Why the descriptor is refused, if it is.
    pub open spec fn error(self) -> Option<MapErrorModel> {
        if self.fd <= 0 {
            Some(MapErrorModel::BadFd { fd: self.fd })
        } else if self.key_size == 0 || self.value_size == 0 || self.max_entries == 0 {
            Some(
                MapErrorModel::InvalidDesc(
                    "zero key_size/value_size/max_entries for fd "@ + int_text(self.fd as int),
                ),
            )
        } else if self.map_type == MapType::Array && self.key_size != 4 {
            Some(
                MapErrorModel::InvalidDesc(
                    "array fd "@ + int_text(self.fd as int) + " needs key_size 4, got "@ + nat_text(
                        self.key_size as nat,
                    ),
                ),
            )
        } else if self.width_error(0) is Some {
            self.width_error(0)
        } else if self.initial.len() > self.max_entries {
            Some(MapErrorModel::Full { max_entries: self.max_entries })
        } else if self.map_type == MapType::Array && self.slot_error() {
            Some(MapErrorModel::Full { max_entries: self.max_entries })
        } else {
            None
        }
    }

    /// The contents of a store made from the descriptor.
    pub open spec fn contents(self) -> StoreModel {
        match self.map_type {
            MapType::Hash => StoreModel::Hash(as_map(self.initial)),
            MapType::Array => StoreModel::Array(
                self.fill_slots(
                    Seq::new(self.max_entries as nat, |i: int| zeros(self.value_size as nat)),
                    0,
                ),
            ),
            MapType::LruArray => StoreModel::Lru(self.initial),
        }
    }
}

/// `n` zero bytes.
pub open spec fn zeros(n: nat) -> Seq<u8> {
    Seq::new(n, |i: int| 0u8)
}

/// The slot that the first four key bytes name, little-endian.
pub open spec fn slot_of(key: Seq<u8>) -> nat {
    le_word(key.take(4))
}

impl MapDesc {
    /// Renders the one-line form.
    pub fn to_string(&self) -> (s: String)
        ensures
            s@ == self@.display(),
    {
        let mut s = String::from_str("fd ");
        push_int(&mut s, self.fd);
        s.append(" (");
        s.append(self.map_type.to_string().as_str());
        s.append(": ");
        push_nat(&mut s, self.key_size as u64);
        s.append("B keys, ");
        push_nat(&mut s, self.value_size as u64);
        s.append("B values, cap ");
        push_nat(&mut s, self.max_entries as u64);
        s.append(")");
        s
    }

    /// A copy of the descriptor.
    pub fn duplicate(&self) -> (r: MapDesc)
        ensures
            r@ == self@,
    {
        let r = MapDesc {
            fd: self.fd,
            map_type: self.map_type,
            key_size: self.key_size,
            value_size: self.value_size,
            max_entries: self.max_entries,
            initial: copy_pairs(&self.initial),
        };
        assert(r@ =~= self@);
        r
    }

    /// Whether two descriptors have the same contents.
    pub fn same(&self, other: &MapDesc) -> (r: bool)
        ensures
            r == (self@ == other@),
    {
        if self.fd != other.fd || self.map_type != other.map_type || self.key_size
            != other.key_size || self.value_size != other.value_size || self.max_entries
            != other.max_entries || self.initial.len() != other.initial.len() {
            assert(self.initial@.len() != other.initial@.len() ==> self@.initial.len()
                != other@.initial.len());
            return false;
        }
        let mut i: usize = 0;
        while i < self.initial.len()
            invariant
                i <= self.initial@.len(),
                self.initial@.len() == other.initial@.len(),
                forall|k: int|
                    0 <= k < i ==> #[trigger] self@.initial[k] == other@.initial[k],
            decreases self.initial@.len() - i,
        {
            assert(self@.initial[i as int] == (self.initial@[i as int].0@, self.initial@[i as int].1@));
            assert(other@.initial[i as int] == (
                other.initial@[i as int].0@,
                other.initial@[i as int].1@,
            ));
            if !same_bytes(self.initial[i].0.as_slice(), other.initial[i].0.as_slice())
                || !same_bytes(self.initial[i].1.as_slice(), other.initial[i].1.as_slice()) {
                return false;
            }
            i = i + 1;
        }
        assert(self@.initial =~= other@.initial);
        true
    }
}

/// Map-access failure.
#[derive(Debug, Clone, PartialEq, Eq)]
#[non_exhaustive]
pub enum MapError {
    /// The descriptor number names no map.
    BadFd {
        /// Offending number.
        fd: i64,
    },
    /// Two descriptors claim the same number.
    DuplicateFd {
        /// Offending number.
        fd: i64,
    },
    /// A descriptor or a flags word is invalid.
    InvalidDesc(String),
    /// Key width does not match the descriptor.
    KeySizeMismatch {
        /// Descriptor width.
        expected: usize,
        /// Presented width.
        got: usize,
    },
    /// Value width does not match the descriptor.
    ValueSizeMismatch {
        /// Descriptor width.
        expected: usize,
        /// Presented width.
        got: usize,
    },
    /// A hash is full, or an array index is out of range.
    Full {
        /// Capacity.
        max_entries: usize,
    },
    /// The key is absent.
    KeyNotFound,
    /// The key is already present.
    KeyExists,
    /// A hexadecimal string is malformed.
    BadHex(String),
}

/// Contents of a [`MapError`].
#[verifier::ext_equal]
pub enum MapErrorModel {
    /// See [`MapError::BadFd`].
    BadFd {
        /// Offending number.
        fd: i64,
    },
    /// See [`MapError::DuplicateFd`].
    DuplicateFd {
        /// Offending number.
        fd: i64,
    },
    /// See [`MapError::InvalidDesc`].
    InvalidDesc(Seq<char>),
    /// See [`MapError::KeySizeMismatch`].
    KeySizeMismatch {
        /// Descriptor width.
        expected: usize,
        /// Presented width.
        got: usize,
    },
    /// See [`MapError::ValueSizeMismatch`].
    ValueSizeMismatch {
        /// Descriptor width.
        expected: usize,
        /// Presented width.
        got: usize,
    },
    /// See [`MapError::Full`].
    Full {
        /// Capacity.
        max_entries: usize,
    },
    /// See [`MapError::KeyNotFound`].
    KeyNotFound,
    /// See [`MapError::KeyExists`].
    KeyExists,
    /// See [`MapError::BadHex`].
    BadHex(Seq<char>),
}

impl View for MapError {
    type V = MapErrorModel;

    open spec fn view(&self) -> MapErrorModel {
        match *self {
            MapError::BadFd { fd } => MapErrorModel::BadFd { fd },
            MapError::DuplicateFd { fd } => MapErrorModel::DuplicateFd { fd },
            MapError::InvalidDesc(s) => MapErrorModel::InvalidDesc(s@),
            MapError::KeySizeMismatch { expected, got } => MapErrorModel::KeySizeMismatch {
                expected,
                got,
            },
            MapError::ValueSizeMismatch { expected, got } => MapErrorModel::ValueSizeMismatch {
                expected,
                got,
            },
            MapError::Full { max_entries } => MapErrorModel::Full { max_entries },
            MapError::KeyNotFound => MapErrorModel::KeyNotFound,
            MapError::KeyExists => MapErrorModel::KeyExists,
            MapError::BadHex(s) => MapErrorModel::BadHex(s@),
        }
    }
}

impl MapErrorModel {
    /// The message of the error.
    pub open spec fn display(self) -> Seq<char> {
        match self {
            MapErrorModel::BadFd { fd } => "bad map fd "@ + int_text(fd as int),
            MapErrorModel::DuplicateFd { fd } => "duplicate map fd "@ + int_text(fd as int),
            MapErrorModel::InvalidDesc(s) => "invalid map descriptor: "@ + s,
            MapErrorModel::KeySizeMismatch { expected, got } =>
            "key size mismatch: expected "@ + nat_text(expected as nat) + ", got "@ + nat_text(
                got as nat,
            ),
            MapErrorModel::ValueSizeMismatch { expected, got } =>
            "value size mismatch: expected "@ + nat_text(expected as nat) + ", got "@ + nat_text(
                got as nat,
            ),
            MapErrorModel::Full { max_entries } => "map full ("@ + nat_text(max_entries as nat)
                + " entries)"@,
            MapErrorModel::KeyNotFound => "key not found"@,
            MapErrorModel::KeyExists => "key already exists"@,
            MapErrorModel::BadHex(s) => "bad hex: "@ + s,
        }
    }
}

impl MapError {
    /// Renders the message of the error.
    pub fn to_string(&self) -> (r: String)
        ensures
            r@ == self@.display(),
    {
        match self {
            MapError::BadFd { fd } => {
                let mut s = String::from_str("bad map fd ");
                push_int(&mut s, *fd);
                s
            },
            MapError::DuplicateFd { fd } => {
                let mut s = String::from_str("duplicate map fd ");
                push_int(&mut s, *fd);
                s
            },
            MapError::InvalidDesc(reason) => {
                let mut s = String::from_str("invalid map descriptor: ");
                s.append(reason.as_str());
                s
            },
            MapError::KeySizeMismatch { expected, got } => {
                let mut s = String::from_str("key size mismatch: expected ");
                push_nat(&mut s, *expected as u64);
                s.append(", got ");
                push_nat(&mut s, *got as u64);
                s
            },
            MapError::ValueSizeMismatch { expected, got } => {
                let mut s = String::from_str("value size mismatch: expected ");
                push_nat(&mut s, *expected as u64);
                s.append(", got ");
                push_nat(&mut s, *got as u64);
                s
            },
            MapError::Full { max_entries } => {
                let mut s = String::from_str("map full (");
                push_nat(&mut s, *max_entries as u64);
                s.append(" entries)");
                s
            },
            MapError::KeyNotFound => String::from_str("key not found"),
            MapError::KeyExists => String::from_str("key already exists"),
            MapError::BadHex(text) => {
                let mut s = String::from_str("bad hex: ");
                s.append(text.as_str());
                s
            },
        }
    }
}

/// Update flags.
#[derive(Debug, Clone, Copy, PartialEq, Eq, Structural)]
pub enum UpdateFlags {
    /// Insert or overwrite.
    Any,
    /// Fail when the key is present.
    NoExist,
    /// Fail when the key is absent.
    Exist,
}

impl UpdateFlags {
    /// The flags of a flags word; other words are refused.
    pub open spec fn of_word(flags: u64) -> Result<UpdateFlags, MapErrorModel> {
        if flags == 0 {
            Ok(UpdateFlags::Any)
        } else if flags == 1 {
            Ok(UpdateFlags::NoExist)
        } else if flags == 2 {
            Ok(UpdateFlags::Exist)
        } else {
            Err(MapErrorModel::InvalidDesc("unknown map update flags "@ + nat_text(flags as nat)))
        }
    }

    /// Decodes a flags word.
    pub fn from_word(flags: u64) -> (r: Result<Self, MapError>)
        ensures
            match r {
                Ok(f) => UpdateFlags::of_word(flags) == Ok::<UpdateFlags, MapErrorModel>(f),
                Err(e) => UpdateFlags::of_word(flags) == Err::<UpdateFlags, MapErrorModel>(e@),
            },
    {
        match flags {
            0 => Ok(UpdateFlags::Any),
            1 => Ok(UpdateFlags::NoExist),
            2 => Ok(UpdateFlags::Exist),
            _ => {
                let mut s = String::from_str("unknown map update flags ");
                push_nat(&mut s, flags);
                Err(MapError::InvalidDesc(s))
            },
        }
    }
}

/// The value of a hexadecimal digit.
pub open spec fn hex_digit(b: u8) -> Option<u8> {
    if 0x30 <= b <= 0x39 {
        Some((b - 0x30) as u8)
    } else if 0x61 <= b <= 0x66 {
        Some((b - 0x61 + 10) as u8)
    } else if 0x41 <= b <= 0x46 {
        Some((b - 0x41 + 10) as u8)
    } else {
        None
    }
}

/// The byte of two hexadecimal digits.
pub open spec fn hex_pair(hi: u8, lo: u8) -> Option<u8> {
    match (hex_digit(hi), hex_digit(lo)) {
        (Some(h), Some(l)) => Some((h * 16 + l) as u8),
        _ => None,
    }
}

/// The bytes of an even-length run of hexadecimal digits.
pub open spec fn hex_bytes(s: Seq<u8>) -> Option<Seq<u8>> {
    if s.len() % 2 == 0 && (forall|i: int|
        0 <= i < s.len() / 2 ==> #[trigger] hex_pair(s[2 * i], s[2 * i + 1]) is Some) {
        Some(Seq::new(s.len() / 2, |i: int| hex_pair(s[2 * i], s[2 * i + 1])->0))
    } else {
        None
    }
}

/// Decodes an even-length hexadecimal string.
pub fn from_hex(s: &str) -> (r: Result<Vec<u8>, MapError>)
    ensures
        match r {
            Ok(bytes) => hex_bytes(s.spec_bytes()) == Some(bytes@),
            Err(e) => hex_bytes(s.spec_bytes()) is None && e@ == MapErrorModel::BadHex(
                if s.spec_bytes().len() % 2 != 0 {
                    "odd length: "@ + s@
                } else {
                    s@
                },
            ),
        },
{
    let text: &[u8] = s.as_bytes();
    let len: usize = text.len();
    if len % 2 != 0 {
        let mut reason = String::from_str("odd length: ");
        reason.append(s);
        return Err(MapError::BadHex(reason));
    }
    let mut out: Vec<u8> = Vec::new();
    let mut i: usize = 0;
    while i < len / 2
        invariant
            text@ == s.spec_bytes(),
            len == text@.len(),
            len % 2 == 0,
            i <= len / 2,
            out@.len() == i,
            forall|k: int|
                0 <= k < i ==> #[trigger] hex_pair(text@[2 * k], text@[2 * k + 1]) == Some(out@[k]),
        decreases len / 2 - i,
    {
        match (hex_val(text[2 * i]), hex_val(text[2 * i + 1])) {
            (Some(hi), Some(lo)) => {
                out.push(hi * 16 + lo);
            },
            _ => {
                assert(hex_pair(text@[2 * i], text@[2 * i + 1]) is None);
                return Err(MapError::BadHex(String::from_str(s)));
            },
        }
        i = i + 1;
    }
    assert(hex_bytes(text@)->0 =~= out@);
    Ok(out)
}

/// Value of one hexadecimal digit.
fn hex_val(b: u8) -> (r: Option<u8>)
    ensures
        r == hex_digit(b),
        r matches Some(v) ==> v < 16,
{
    if 0x30 <= b && b <= 0x39 {
        Some(b - 0x30)
    } else if 0x61 <= b && b <= 0x66 {
        Some(b - 0x61 + 10)
    } else if 0x41 <= b && b <= 0x46 {
        Some(b - 0x41 + 10)
    } else {
        None
    }
}

/// The character of one upper-case hexadecimal digit.
pub open spec fn upper_digit(d: u8) -> char {
    if d < 10 {
        ('0' as u32 + d) as char
    } else {
        ('A' as u32 + (d - 10)) as char
    }
}

/// Upper-case hexadecimal text of bytes, two digits each.
pub open spec fn upper_hex(bytes: Seq<u8>) -> Seq<char> {
    Seq::new(
        2 * bytes.len(),
        |i: int|
            if i % 2 == 0 {
                upper_digit(bytes[i / 2] / 16)
            } else {
                upper_digit((bytes[i / 2] % 16) as u8)
            },
    )
}

fn push_upper(out: &mut String, d: u8)
    requires
        d < 16,
    ensures
        final(out)@ == old(out)@.push(upper_digit(d)),
{
    proof {
        reveal_strlit("0");
        reveal_strlit("1");
        reveal_strlit("2");
        reveal_strlit("3");
        reveal_strlit("4");
        reveal_strlit("5");
        reveal_strlit("6");
        reveal_strlit("7");
        reveal_strlit("8");
        reveal_strlit("9");
        reveal_strlit("A");
        reveal_strlit("B");
        reveal_strlit("C");
        reveal_strlit("D");
        reveal_strlit("E");
        reveal_strlit("F");
    }
    let s: &str = match d {
        0 => "0",
        1 => "1",
        2 => "2",
        3 => "3",
        4 => "4",
        5 => "5",
        6 => "6",
        7 => "7",
        8 => "8",
        9 => "9",
        10 => "A",
        11 => "B",
        12 => "C",
        13 => "D",
        14 => "E",
        _ => "F",
    };
    assert(s@ =~= seq![upper_digit(d)]);
    out.append(s);
    assert(out@ =~= old(out)@.push(upper_digit(d)));
}

/// Encodes bytes as upper-case hexadecimal digits.
pub fn to_hex(bytes: &[u8]) -> (r: String)
    ensures
        r@ == upper_hex(bytes@),
{
    let mut out = String::new();
    let mut i: usize = 0;
    assert(out@ =~= upper_hex(bytes@.take(0)));
    while i < bytes.len()
        invariant
            i <= bytes@.len(),
            out@ == upper_hex(bytes@.take(i as int)),
        decreases bytes@.len() - i,
    {
        let b: u8 = bytes[i];
        push_upper(&mut out, b / 16);
        push_upper(&mut out, b % 16);
        assert(out@ =~= upper_hex(bytes@.take(i + 1)));
        i = i + 1;
    }
    assert(bytes@.take(i as int) =~= bytes@);
    out
}

/// Decoding the hexadecimal text of bytes gives the bytes back.
pub proof fn hex_roundtrip(s: &str, bytes: Seq<u8>)
    requires
        s@ == upper_hex(bytes),
    ensures
        hex_bytes(s.spec_bytes()) == Some(bytes),
{
    assert(vstd::string::is_ascii(s)) by {
        assert forall|i: int| 0 <= i < s@.len() implies 0 <= (#[trigger] s@[i] as nat) < 128 by {}
    }
    vstd::string::is_ascii_spec_bytes(s);
    let t = s.spec_bytes();
    assert forall|i: int| 0 <= i < bytes.len() implies #[trigger] hex_pair(t[2 * i], t[2 * i + 1])
        == Some(bytes[i]) by {
        assert(s@[2 * i] == upper_digit(bytes[i] / 16));
        assert(s@[2 * i + 1] == upper_digit((bytes[i] % 16) as u8));
    }
    assert(hex_bytes(t)->0 =~= bytes);
}

/// Runtime map storage.
#[derive(Debug, Clone)]
pub enum MapStore {
    /// Unordered map.
    Hash {
        /// Static description.
        desc: MapDesc,
        /// Live entries; no key occurs twice.
        data: Vec<(Vec<u8>, Vec<u8>)>,
    },
    /// Slots addressed by index.
    Array {
        /// Static description.
        desc: MapDesc,
        /// One value per slot.
        data: Vec<Vec<u8>>,
    },
    /// Unordered map that evicts the least recently used key at capacity.
    LruArray {
        /// Static description.
        desc: MapDesc,
        /// Live entries, least recently used first; no key occurs twice.
        data: Vec<(Vec<u8>, Vec<u8>)>,
    },
}

/// Contents of a [`MapStore`].
#[verifier::ext_equal]
pub enum StoreModel {
    /// An unordered map.
    Hash(Map<Seq<u8>, Seq<u8>>),
    /// Slots by index.
    Array(Seq<Seq<u8>>),
    /// Entries, least recently used first.
    Lru(Pairs),
}

impl View for MapStore {
    type V = StoreModel;

    open spec fn view(&self) -> StoreModel {
        match *self {
            MapStore::Hash { data, .. } => StoreModel::Hash(as_map(pairs_of(data@))),
            MapStore::Array { data, .. } => StoreModel::Array(slots_of(data@)),
            MapStore::LruArray { data, .. } => StoreModel::Lru(pairs_of(data@)),
        }
    }
}

/// The slots that a vector holds.
pub open spec fn slots_of(data: Seq<Vec<u8>>) -> Seq<Seq<u8>> {
    data.map_values(|v: Vec<u8>| v@)
}

/// `s` without the entry of `key`.
pub open spec fn without(s: Pairs, key: Seq<u8>) -> Pairs {
    if has_key(s, key) {
        s.remove(index_of(s, key))
    } else {
        s
    }
}

impl StoreModel {
    /// What a lookup of a key of the right width gives.
    pub open spec fn found(self, desc: DescModel, key: Seq<u8>) -> Result<
        Option<Seq<u8>>,
        MapErrorModel,
    > {
        if key.len() != desc.key_size {
            Err(
                MapErrorModel::KeySizeMismatch {
                    expected: desc.key_size,
                    got: key.len() as usize,
                },
            )
        } else {
            match self {
                StoreModel::Hash(m) => Ok(
                    if m.contains_key(key) {
                        Some(m[key])
                    } else {
                        None
                    },
                ),
                StoreModel::Array(slots) => if slot_of(key) >= desc.max_entries {
                    Err(MapErrorModel::Full { max_entries: desc.max_entries })
                } else {
                    Ok(Some(slots[slot_of(key) as int]))
                },
                StoreModel::Lru(s) => Ok(
                    if has_key(s, key) {
                        Some(s[index_of(s, key)].1)
                    } else {
                        None
                    },
                ),
            }
        }
    }

    /// The contents after a lookup: a hit in an evicting map makes the key
    /// the most recently used one.
    pub open spec fn touched(self, desc: DescModel, key: Seq<u8>) -> StoreModel {
        match self {
            StoreModel::Lru(s) if key.len() == desc.key_size && has_key(s, key) => StoreModel::Lru(
                without(s, key).push(s[index_of(s, key)]),
            ),
            _ => self,
        }
    }

    /// Whether a key is present. Array slots always are.
    pub open spec fn present(self, key: Seq<u8>) -> bool {
        match self {
            StoreModel::Hash(m) => m.contains_key(key),
            StoreModel::Array(_) => true,
            StoreModel::Lru(s) => has_key(s, key),
        }
    }

    /// Why an update is refused, if it is.
    pub open spec fn update_error(
        self,
        desc: DescModel,
        key: Seq<u8>,
        value: Seq<u8>,
        flags: u64,
    ) -> Option<MapErrorModel> {
        match UpdateFlags::of_word(flags) {
            Err(e) => Some(e),
            Ok(flag) => {
                if key.len() != desc.key_size {
                    Some(
                        MapErrorModel::KeySizeMismatch {
                            expected: desc.key_size,
                            got: key.len() as usize,
                        },
                    )
                } else if value.len() != desc.value_size {
                    Some(
                        MapErrorModel::ValueSizeMismatch {
                            expected: desc.value_size,
                            got: value.len() as usize,
                        },
                    )
                } else if self is Array && slot_of(key) >= desc.max_entries {
                    Some(MapErrorModel::Full { max_entries: desc.max_entries })
                } else if flag == UpdateFlags::NoExist && self.present(key) {
                    Some(MapErrorModel::KeyExists)
                } else if flag == UpdateFlags::Exist && !self.present(key) {
                    Some(MapErrorModel::KeyNotFound)
                } else {
                    match self {
                        StoreModel::Hash(m) if !m.contains_key(key) && m.dom().len()
                            >= desc.max_entries => Some(
                            MapErrorModel::Full { max_entries: desc.max_entries },
                        ),
                        _ => None,
                    }
                }
            },
        }
    }

    /// The contents after an update that is not refused. An evicting map at
    /// capacity drops its least recently used key for a new one.
    pub open spec fn updated(self, desc: DescModel, key: Seq<u8>, value: Seq<u8>) -> StoreModel {
        match self {
            StoreModel::Hash(m) => StoreModel::Hash(m.insert(key, value)),
            StoreModel::Array(slots) => StoreModel::Array(
                slots.update(slot_of(key) as int, value),
            ),
            StoreModel::Lru(s) => {
                let room = if !has_key(s, key) && s.len() >= desc.max_entries {
                    s.skip(1)
                } else {
                    without(s, key)
                };
                StoreModel::Lru(room.push((key, value)))
            },
        }
    }

    /// Why a deletion is refused, if it is.
    pub open spec fn delete_error(self, desc: DescModel, key: Seq<u8>) -> Option<MapErrorModel> {
        if key.len() != desc.key_size {
            Some(
                MapErrorModel::KeySizeMismatch { expected: desc.key_size, got: key.len() as usize },
            )
        } else if self is Array && slot_of(key) >= desc.max_entries {
            Some(MapErrorModel::Full { max_entries: desc.max_entries })
        } else if !self.present(key) {
            Some(MapErrorModel::KeyNotFound)
        } else {
            None
        }
    }

    /// The contents after a deletion that is not refused; an array slot is
    /// zeroed.
    pub open spec fn deleted(self, desc: DescModel, key: Seq<u8>) -> StoreModel {
        match self {
            StoreModel::Hash(m) => StoreModel::Hash(m.remove(key)),
            StoreModel::Array(slots) => StoreModel::Array(
                slots.update(slot_of(key) as int, zeros(desc.value_size as nat)),
            ),
            StoreModel::Lru(s) => StoreModel::Lru(without(s, key)),
        }
    }
}

/// Whether pairs have the widths of a descriptor, within its capacity.
pub open spec fn sized(s: Pairs, desc: DescModel) -> bool {
    &&& s.len() <= desc.max_entries
    &&& forall|i: int|
        0 <= i < s.len() ==> (#[trigger] s[i]).0.len() == desc.key_size && s[i].1.len()
            == desc.value_size
}

impl MapStore {
    /// Static description.
    pub open spec fn descriptor(&self) -> MapDesc {
        match *self {
            MapStore::Hash { desc, .. } => desc,
            MapStore::Array { desc, .. } => desc,
            MapStore::LruArray { desc, .. } => desc,
        }
    }

    /// Invariant: keys are distinct and have the descriptor's widths, the
    /// number of entries is within the capacity, and arrays have one value
    /// of the right width per slot.
    pub open spec fn wf(&self) -> bool {
        let desc = self.descriptor()@;
        &&& desc.max_entries > 0
        &&& desc.key_size > 0
        &&& desc.value_size > 0
        &&& match *self {
            MapStore::Hash { data, .. } => distinct(pairs_of(data@)) && sized(
                pairs_of(data@),
                desc,
            ),
            MapStore::Array { data, .. } => desc.key_size == 4 && data@.len() == desc.max_entries
                && forall|i: int|
                0 <= i < data@.len() ==> (#[trigger] data@[i])@.len() == desc.value_size,
            MapStore::LruArray { data, .. } => distinct(pairs_of(data@)) && sized(
                pairs_of(data@),
                desc,
            ),
        }
    }

    /// Builds storage from a descriptor, validating its sizes and loading its
    /// initial entries.
    pub fn new(desc: MapDesc) -> (r: Result<Self, MapError>)
        requires
            ascending(desc@.initial),
        ensures
            match r {
                Ok(store) => {
                    &&& desc@.error() is None
                    &&& store.wf()
                    &&& store.descriptor()@ == desc@
                    &&& store@ == desc@.contents()
                },
                Err(e) => desc@.error() == Some(e@),
            },
    {
        if desc.fd <= 0 {
            return Err(MapError::BadFd { fd: desc.fd });
        }
        if desc.key_size == 0 || desc.value_size == 0 || desc.max_entries == 0 {
            let mut s = String::from_str("zero key_size/value_size/max_entries for fd ");
            push_int(&mut s, desc.fd);
            return Err(MapError::InvalidDesc(s));
        }
        if desc.map_type == MapType::Array && desc.key_size != 4 {
            let mut s = String::from_str("array fd ");
            push_int(&mut s, desc.fd);
            s.append(" needs key_size 4, got ");
            push_nat(&mut s, desc.key_size as u64);
            return Err(MapError::InvalidDesc(s));
        }
        let ghost model = desc@;
        proof {
            lemma_ascending_distinct(model.initial);
        }
        let mut i: usize = 0;
        while i < desc.initial.len()
            invariant
                model == desc@,
                desc.fd > 0,
                desc.key_size != 0 && desc.value_size != 0 && desc.max_entries != 0,
                desc.map_type == MapType::Array ==> desc.key_size == 4,
                i <= desc.initial@.len(),
                model.width_error(0) == model.width_error(i as nat),
                forall|k: int|
                    0 <= k < i ==> (#[trigger] model.initial[k]).0.len() == model.key_size
                        && model.initial[k].1.len() == model.value_size,
            decreases desc.initial@.len() - i,
        {
            let entry = &desc.initial[i];
            assert(model.initial[i as int] == (entry.0@, entry.1@));
            if entry.0.len() != desc.key_size {
                return Err(
                    MapError::KeySizeMismatch { expected: desc.key_size, got: entry.0.len() },
                );
            }
            if entry.1.len() != desc.value_size {
                return Err(
                    MapError::ValueSizeMismatch { expected: desc.value_size, got: entry.1.len() },
                );
            }
            i = i + 1;
        }
        assert(model.width_error(0) is None);
        if desc.initial.len() > desc.max_entries {
            return Err(MapError::Full { max_entries: desc.max_entries });
        }
        match desc.map_type {
            MapType::Hash => {
                let data = copy_pairs(&desc.initial);
                Ok(MapStore::Hash { desc, data })
            },
            MapType::Array => {
                let data = match initial_slots(&desc) {
                    Ok(data) => data,
                    Err(e) => {
                        return Err(e);
                    },
                };
                Ok(MapStore::Array { desc, data })
            },
            MapType::LruArray => {
                let data = copy_pairs(&desc.initial);
                Ok(MapStore::LruArray { desc, data })
            },
        }
    }

    /// Static description.
    pub fn desc(&self) -> (r: &MapDesc)
        ensures
            *r == self.descriptor(),
    {
        match self {
            MapStore::Hash { desc, .. } => desc,
            MapStore::Array { desc, .. } => desc,
            MapStore::LruArray { desc, .. } => desc,
        }
    }

    /// Number of live entries; array slots always count.
    pub fn len(&self) -> (r: usize)
        requires
            self.wf(),
        ensures
            match self@ {
                StoreModel::Hash(m) => r == m.dom().len(),
                StoreModel::Array(slots) => r == slots.len(),
                StoreModel::Lru(s) => r == s.len(),
            },
    {
        match self {
            MapStore::Hash { data, .. } => {
                proof {
                    lemma_map_len(pairs_of(data@));
                }
                data.len()
            },
            MapStore::LruArray { data, .. } => data.len(),
            MapStore::Array { desc, .. } => desc.max_entries,
        }
    }

    /// Capacity in entries.
    pub fn capacity(&self) -> (r: usize)
        ensures
            r == self.descriptor().max_entries,
    {
        self.desc().max_entries
    }

    /// Whether a hash holds no entries (arrays are never empty).
    pub fn is_empty(&self) -> (r: bool)
        requires
            self.wf(),
        ensures
            match self@ {
                StoreModel::Hash(m) => r == (m.dom().len() == 0),
                StoreModel::Array(_) => !r,
                StoreModel::Lru(s) => r == (s.len() == 0),
            },
    {
        match self {
            MapStore::Hash { data, .. } => {
                proof {
                    lemma_map_len(pairs_of(data@));
                }
                data.len() == 0
            },
            MapStore::LruArray { data, .. } => data.len() == 0,
            MapStore::Array { .. } => false,
        }
    }

    /// Key width check.
    fn check_key(&self, key: &[u8]) -> (r: Result<(), MapError>)
        ensures
            match r {
                Ok(()) => key@.len() == self.descriptor().key_size,
                Err(e) => key@.len() != self.descriptor().key_size && e@
                    == (MapErrorModel::KeySizeMismatch {
                    expected: self.descriptor().key_size,
                    got: key@.len() as usize,
                }),
            },
    {
        let expected: usize = self.desc().key_size;
        if key.len() != expected {
            return Err(MapError::KeySizeMismatch { expected, got: key.len() });
        }
        Ok(())
    }

    /// Value width check.
    fn check_value(&self, value: &[u8]) -> (r: Result<(), MapError>)
        ensures
            match r {
                Ok(()) => value@.len() == self.descriptor().value_size,
                Err(e) => value@.len() != self.descriptor().value_size && e@
                    == (MapErrorModel::ValueSizeMismatch {
                    expected: self.descriptor().value_size,
                    got: value@.len() as usize,
                }),
            },
    {
        let expected: usize = self.desc().value_size;
        if value.len() != expected {
            return Err(MapError::ValueSizeMismatch { expected, got: value.len() });
        }
        Ok(())
    }

    /// Looks up a key; a hit in an evicting map makes the key the most
    /// recently used one.
    pub fn lookup(&mut self, key: &[u8]) -> (r: Result<Option<&[u8]>, MapError>)
        requires
            old(self).wf(),
        ensures
            final(self).wf(),
            final(self).descriptor()@ == old(self).descriptor()@,
            final(self)@ == old(self)@.touched(old(self).descriptor()@, key@),
            match r {
                Ok(Some(v)) => old(self)@.found(old(self).descriptor()@, key@) == Ok::<
                    Option<Seq<u8>>,
                    MapErrorModel,
                >(Some(v@)),
                Ok(None) => old(self)@.found(old(self).descriptor()@, key@) == Ok::<
                    Option<Seq<u8>>,
                    MapErrorModel,
                >(None),
                Err(e) => old(self)@.found(old(self).descriptor()@, key@) == Err::<
                    Option<Seq<u8>>,
                    MapErrorModel,
                >(e@),
            },
    {
        match self.check_key(key) {
            Ok(()) => {},
            Err(e) => {
                return Err(e);
            },
        }
        match self {
            MapStore::Hash { desc, data } => {
                let ghost s = pairs_of(data@);
                match find(data, key) {
                    Some(i) => {
                        proof {
                            lemma_index(s, key@, i as int);
                            assert(s[i as int].1 == data@[i as int].1@);
                        }
                        Ok(Some(data[i].1.as_slice()))
                    },
                    None => Ok(None),
                }
            },
            MapStore::Array { desc, data } => {
                let max_entries: usize = desc.max_entries;
                match array_index(key, max_entries) {
                    Ok(idx) => {
                        assert(slots_of(data@)[idx as int] == data@[idx as int]@);
                        Ok(Some(data[idx].as_slice()))
                    },
                    Err(e) => Err(e),
                }
            },
            MapStore::LruArray { desc, data } => {
                let ghost s = pairs_of(data@);
                match find(data, key) {
                    Some(i) => {
                        proof {
                            lemma_index(s, key@, i as int);
                        }
                        lru_touch(data, i);
                        assert(pairs_of(data@).len() == data@.len());
                        assert(pairs_of(data@).len() == s.len());
                        let last: usize = data.len() - 1;
                        assert(pairs_of(data@)[last as int] == s[i as int]);
                        assert(pairs_of(data@)[last as int].1 == data@[last as int].1@);
                        proof {
                            lemma_touch_sized(s, old(self).descriptor()@, i as int);
                        }
                        Ok(Some(data[last].1.as_slice()))
                    },
                    None => Ok(None),
                }
            },
        }
    }

    /// Inserts or overwrites an entry.
    pub fn update(&mut self, key: &[u8], value: &[u8], flags: u64) -> (r: Result<(), MapError>)
        requires
            old(self).wf(),
        ensures
            final(self).wf(),
            final(self).descriptor()@ == old(self).descriptor()@,
            match r {
                Ok(()) => {
                    &&& old(self)@.update_error(old(self).descriptor()@, key@, value@, flags)
                        is None
                    &&& final(self)@ == old(self)@.updated(old(self).descriptor()@, key@, value@)
                },
                Err(e) => {
                    &&& old(self)@.update_error(old(self).descriptor()@, key@, value@, flags)
                        == Some(e@)
                    &&& final(self)@ == old(self)@
                },
            },
    {
        let flag = match UpdateFlags::from_word(flags) {
            Ok(flag) => flag,
            Err(e) => {
                return Err(e);
            },
        };
        match self.check_key(key) {
            Ok(()) => {},
            Err(e) => {
                return Err(e);
            },
        }
        match self.check_value(value) {
            Ok(()) => {},
            Err(e) => {
                return Err(e);
            },
        }
        match self {
            MapStore::Hash { desc, data } => {
                let ghost s = pairs_of(data@);
                let at = find(data, key);
                let present = at.is_some();
                if flag == UpdateFlags::NoExist && present {
                    return Err(MapError::KeyExists);
                }
                if flag == UpdateFlags::Exist && !present {
                    return Err(MapError::KeyNotFound);
                }
                let max_entries: usize = desc.max_entries;
                proof {
                    lemma_map_len(s);
                }
                if !present && data.len() >= max_entries {
                    return Err(MapError::Full { max_entries });
                }
                match at {
                    Some(i) => {
                        proof {
                            lemma_map_replace(s, i as int, key@, value@);
                        }
                        let entry = (slice_to_vec(key), slice_to_vec(value));
                        data.set(i, entry);
                        assert(pairs_of(data@) =~= s.update(i as int, (key@, value@)));
                    },
                    None => {
                        proof {
                            lemma_map_push(s, key@, value@);
                        }
                        data.push((slice_to_vec(key), slice_to_vec(value)));
                        assert(pairs_of(data@) =~= s.push((key@, value@)));
                    },
                }
                Ok(())
            },
            MapStore::Array { desc, data } => {
                let max_entries: usize = desc.max_entries;
                let idx: usize = match array_index(key, max_entries) {
                    Ok(idx) => idx,
                    Err(e) => {
                        return Err(e);
                    },
                };
                // Array slots always exist.
                if flag == UpdateFlags::NoExist {
                    return Err(MapError::KeyExists);
                }
                let ghost slots = slots_of(data@);
                data.set(idx, slice_to_vec(value));
                assert(slots_of(data@) =~= slots.update(idx as int, value@));
                Ok(())
            },
            MapStore::LruArray { desc, data } => {
                let ghost s = pairs_of(data@);
                let at = find(data, key);
                let present = at.is_some();
                if flag == UpdateFlags::NoExist && present {
                    return Err(MapError::KeyExists);
                }
                if flag == UpdateFlags::Exist && !present {
                    return Err(MapError::KeyNotFound);
                }
                let max_entries: usize = desc.max_entries;
                match at {
                    Some(i) => {
                        proof {
                            lemma_index(s, key@, i as int);
                            lemma_remove_distinct(s, i as int);
                        }
                        let _ = data.remove(i);
                        assert(pairs_of(data@) =~= s.remove(i as int));
                    },
                    None => {
                        if data.len() >= max_entries {
                            proof {
                                lemma_remove_distinct(s, 0);
                            }
                            let _ = data.remove(0);
                            assert(pairs_of(data@) =~= s.remove(0));
                            assert(s.remove(0) =~= s.skip(1));
                        }
                    },
                }
                let ghost t = pairs_of(data@);
                assert(!has_key(t, key@)) by {
                    if has_key(t, key@) {
                        let k = choose|k: int| 0 <= k < t.len() && #[trigger] t[k].0 == key@;
                        if at is Some {
                            let i = at->0 as int;
                            assert(t[k].0 == s[if k < i { k } else { k + 1 }].0);
                        } else if s.len() >= max_entries {
                            assert(t[k].0 == s[k + 1].0);
                        } else {
                            assert(t[k].0 == s[k].0);
                        }
                    }
                }
                data.push((slice_to_vec(key), slice_to_vec(value)));
                assert(pairs_of(data@) =~= t.push((key@, value@)));
                Ok(())
            },
        }
    }

    /// Deletes an entry; an array slot is zeroed.
    pub fn delete(&mut self, key: &[u8]) -> (r: Result<(), MapError>)
        requires
            old(self).wf(),
        ensures
            final(self).wf(),
            final(self).descriptor()@ == old(self).descriptor()@,
            match r {
                Ok(()) => {
                    &&& old(self)@.delete_error(old(self).descriptor()@, key@) is None
                    &&& final(self)@ == old(self)@.deleted(old(self).descriptor()@, key@)
                },
                Err(e) => {
                    &&& old(self)@.delete_error(old(self).descriptor()@, key@) == Some(e@)
                    &&& final(self)@ == old(self)@
                },
            },
    {
        match self.check_key(key) {
            Ok(()) => {},
            Err(e) => {
                return Err(e);
            },
        }
        match self {
            MapStore::Hash { desc, data } => {
                let ghost s = pairs_of(data@);
                match find(data, key) {
                    Some(i) => {
                        proof {
                            lemma_map_remove(s, i as int);
                            lemma_remove_distinct(s, i as int);
                        }
                        let _ = data.remove(i);
                        assert(pairs_of(data@) =~= s.remove(i as int));
                        Ok(())
                    },
                    None => Err(MapError::KeyNotFound),
                }
            },
            MapStore::Array { desc, data } => {
                let max_entries: usize = desc.max_entries;
                let idx: usize = match array_index(key, max_entries) {
                    Ok(idx) => idx,
                    Err(e) => {
                        return Err(e);
                    },
                };
                let ghost slots = slots_of(data@);
                data.set(idx, zero_bytes(desc.value_size));
                assert(slots_of(data@) =~= slots.update(
                    idx as int,
                    zeros(old(self).descriptor().value_size as nat),
                ));
                Ok(())
            },
            MapStore::LruArray { desc, data } => {
                let ghost s = pairs_of(data@);
                match find(data, key) {
                    Some(i) => {
                        proof {
                            lemma_index(s, key@, i as int);
                            lemma_remove_distinct(s, i as int);
                        }
                        let _ = data.remove(i);
                        assert(pairs_of(data@) =~= s.remove(i as int));
                        Ok(())
                    },
                    None => Err(MapError::KeyNotFound),
                }
            },
        }
    }
}

/// Makes the entry at `i` the most recently used one.
fn lru_touch(data: &mut Vec<(Vec<u8>, Vec<u8>)>, i: usize)
    requires
        i < old(data)@.len(),
        distinct(pairs_of(old(data)@)),
    ensures
        distinct(pairs_of(final(data)@)),
        ({
            let s = pairs_of(old(data)@);
            pairs_of(final(data)@) == without(s, s[i as int].0).push(s[i as int])
        }),
{
    let ghost s = pairs_of(data@);
    let entry = data.remove(i);
    proof {
        lemma_index(s, s[i as int].0, i as int);
        lemma_remove_distinct(s, i as int);
        assert(pairs_of(data@) =~= s.remove(i as int));
    }
    let ghost t = pairs_of(data@);
    data.push(entry);
    proof {
        assert(pairs_of(data@) =~= t.push(s[i as int]));
        assert forall|k: int| 0 <= k < t.len() implies #[trigger] t[k].0 != s[i as int].0 by {
            assert(t[k] == s[if k < i {
                k
            } else {
                k + 1
            }]);
        }
    }
}

/// Whether two byte slices are equal.
pub fn same_bytes(a: &[u8], b: &[u8]) -> (r: bool)
    ensures
        r == (a@ == b@),
{
    if a.len() != b.len() {
        return false;
    }
    let mut i: usize = 0;
    while i < a.len()
        invariant
            i <= a@.len(),
            a@.len() == b@.len(),
            forall|k: int| 0 <= k < i ==> a@[k] == b@[k],
        decreases a@.len() - i,
    {
        if a[i] != b[i] {
            return false;
        }
        i = i + 1;
    }
    assert(a@ =~= b@);
    true
}

/// Position of a key.
fn find(data: &Vec<(Vec<u8>, Vec<u8>)>, key: &[u8]) -> (r: Option<usize>)
    ensures
        match r {
            Some(i) => i < data@.len() && pairs_of(data@)[i as int].0 == key@,
            None => !has_key(pairs_of(data@), key@),
        },
{
    let mut i: usize = 0;
    while i < data.len()
        invariant
            i <= data@.len(),
            forall|k: int| 0 <= k < i ==> (#[trigger] pairs_of(data@)[k]).0 != key@,
        decreases data@.len() - i,
    {
        if same_bytes(data[i].0.as_slice(), key) {
            return Some(i);
        }
        i = i + 1;
    }
    None
}

/// A copy of key-value pairs.
fn copy_pairs(data: &Vec<(Vec<u8>, Vec<u8>)>) -> (r: Vec<(Vec<u8>, Vec<u8>)>)
    ensures
        pairs_of(r@) == pairs_of(data@),
{
    let mut out: Vec<(Vec<u8>, Vec<u8>)> = Vec::new();
    let mut i: usize = 0;
    while i < data.len()
        invariant
            i <= data@.len(),
            pairs_of(out@) == pairs_of(data@).take(i as int),
        decreases data@.len() - i,
    {
        let ghost before = pairs_of(out@);
        let key = slice_to_vec(data[i].0.as_slice());
        let value = slice_to_vec(data[i].1.as_slice());
        out.push((key, value));
        assert(pairs_of(out@) =~= before.push((key@, value@)));
        assert(pairs_of(data@)[i as int] == (key@, value@));
        assert(pairs_of(data@).take(i + 1) =~= pairs_of(data@).take(i as int).push((key@, value@)));
        i = i + 1;
    }
    assert(pairs_of(out@) =~= pairs_of(data@));
    out
}

/// `n` zero bytes.
fn zero_bytes(n: usize) -> (r: Vec<u8>)
    ensures
        r@ == zeros(n as nat),
{
    let mut out: Vec<u8> = Vec::new();
    let mut i: usize = 0;
    while i < n
        invariant
            i <= n,
            out@ == zeros(i as nat),
        decreases n - i,
    {
        out.push(0);
        assert(out@ =~= zeros((i + 1) as nat));
        i = i + 1;
    }
    out
}

/// The slots of an array map after its initial entries.
fn initial_slots(desc: &MapDesc) -> (r: Result<Vec<Vec<u8>>, MapError>)
    requires
        desc.key_size == 4,
        forall|k: int|
            0 <= k < desc@.initial.len() ==> (#[trigger] desc@.initial[k]).0.len() == 4
                && desc@.initial[k].1.len() == desc.value_size,
    ensures
        match r {
            Ok(data) => {
                &&& !desc@.slot_error()
                &&& data@.len() == desc.max_entries
                &&& forall|i: int|
                    0 <= i < data@.len() ==> (#[trigger] data@[i])@.len() == desc.value_size
                &&& slots_of(data@) == desc@.fill_slots(
                    Seq::new(desc.max_entries as nat, |i: int| zeros(desc.value_size as nat)),
                    0,
                )
            },
            Err(e) => desc@.slot_error() && e@ == (MapErrorModel::Full {
                max_entries: desc.max_entries,
            }),
        },
{
    let ghost model = desc@;
    let ghost start = Seq::new(desc.max_entries as nat, |i: int| zeros(desc.value_size as nat));
    let mut data: Vec<Vec<u8>> = Vec::new();
    let mut n: usize = 0;
    while n < desc.max_entries
        invariant
            n <= desc.max_entries,
            data@.len() == n,
            forall|i: int| 0 <= i < n ==> (#[trigger] data@[i])@ == zeros(desc.value_size as nat),
        decreases desc.max_entries - n,
    {
        data.push(zero_bytes(desc.value_size));
        n = n + 1;
    }
    assert(slots_of(data@) =~= start);
    let mut i: usize = 0;
    while i < desc.initial.len()
        invariant
            model == desc@,
            i <= desc.initial@.len(),
            data@.len() == desc.max_entries,
            forall|k: int|
                0 <= k < model.initial.len() ==> (#[trigger] model.initial[k]).0.len() == 4
                    && model.initial[k].1.len() == desc.value_size,
            forall|j: int|
                0 <= j < data@.len() ==> (#[trigger] data@[j])@.len() == desc.value_size,
            forall|k: int|
                0 <= k < i ==> slot_of((#[trigger] model.initial[k]).0) < desc.max_entries,
            model.fill_slots(start, 0) == model.fill_slots(slots_of(data@), i as nat),
        decreases desc.initial@.len() - i,
    {
        let entry = &desc.initial[i];
        assert(model.initial[i as int] == (entry.0@, entry.1@));
        let idx: usize = match array_index(entry.0.as_slice(), desc.max_entries) {
            Ok(idx) => idx,
            Err(e) => {
                return Err(e);
            },
        };
        let ghost before = slots_of(data@);
        data.set(idx, slice_to_vec(entry.1.as_slice()));
        assert(slots_of(data@) =~= before.update(idx as int, entry.1@));
        i = i + 1;
    }
    Ok(data)
}

/// The slot that array key bytes name.
fn array_index(key: &[u8], max_entries: usize) -> (r: Result<usize, MapError>)
    requires
        key@.len() == 4,
    ensures
        match r {
            Ok(idx) => idx == slot_of(key@) && idx < max_entries,
            Err(e) => slot_of(key@) >= max_entries && e@ == (MapErrorModel::Full { max_entries }),
        },
{
    let word: u64 = read_le(key, 0, 4);
    proof {
        assert(key@.subrange(0, 4) =~= key@.take(4));
        lemma_word_bound(key@.take(4));
        lemma_pow256_values();
    }
    let idx: usize = word as usize;
    if idx >= max_entries {
        return Err(MapError::Full { max_entries });
    }
    Ok(idx)
}

proof fn lemma_index(s: Pairs, key: Seq<u8>, i: int)
    requires
        distinct(s),
        0 <= i < s.len(),
        s[i].0 == key,
    ensures
        has_key(s, key),
        index_of(s, key) == i,
{
    let j = index_of(s, key);
    assert(0 <= j < s.len() && s[j].0 == key);
}

proof fn lemma_touch_sized(s: Pairs, desc: DescModel, i: int)
    requires
        sized(s, desc),
        0 <= i < s.len(),
    ensures
        sized(s.remove(i).push(s[i]), desc),
{
    let t = s.remove(i).push(s[i]);
    assert forall|k: int| 0 <= k < t.len() implies (#[trigger] t[k]).0.len() == desc.key_size
        && t[k].1.len() == desc.value_size by {
        if k < s.len() - 1 {
            assert(t[k] == s[if k < i {
                k
            } else {
                k + 1
            }]);
        }
    }
}

proof fn lemma_remove_distinct(s: Pairs, i: int)
    requires
        distinct(s),
        0 <= i < s.len(),
    ensures
        distinct(s.remove(i)),
{
    let t = s.remove(i);
    assert forall|a: int, b: int| 0 <= a < b < t.len() implies #[trigger] t[a].0
        != #[trigger] t[b].0 by {
        let a2 = if a < i {
            a
        } else {
            a + 1
        };
        let b2 = if b < i {
            b
        } else {
            b + 1
        };
        assert(t[a] == s[a2] && t[b] == s[b2]);
    }
}

proof fn lemma_map_replace(s: Pairs, i: int, key: Seq<u8>, value: Seq<u8>)
    requires
        distinct(s),
        0 <= i < s.len(),
        s[i].0 == key,
    ensures
        distinct(s.update(i, (key, value))),
        as_map(s.update(i, (key, value))) == as_map(s).insert(key, value),
{
    let t = s.update(i, (key, value));
    assert forall|a: int| 0 <= a < t.len() implies #[trigger] t[a].0 == s[a].0 by {}
    assert(distinct(t));
    assert forall|k: Seq<u8>| #[trigger] as_map(t).dom().contains(k) == as_map(s).insert(
        key,
        value,
    ).dom().contains(k) by {
        if has_key(t, k) {
            let j = index_of(t, k);
            assert(s[j].0 == k);
        }
        if has_key(s, k) {
            let j = index_of(s, k);
            assert(t[j].0 == k);
        }
        lemma_index(t, key, i);
    }
    assert forall|k: Seq<u8>| as_map(t).dom().contains(k) implies #[trigger] as_map(t)[k]
        == as_map(s).insert(key, value)[k] by {
        let j = index_of(t, k);
        lemma_index(t, k, j);
        lemma_index(s, k, j);
    }
    assert(as_map(t) =~= as_map(s).insert(key, value));
}

proof fn lemma_map_push(s: Pairs, key: Seq<u8>, value: Seq<u8>)
    requires
        distinct(s),
        !has_key(s, key),
    ensures
        distinct(s.push((key, value))),
        as_map(s.push((key, value))) == as_map(s).insert(key, value),
{
    let t = s.push((key, value));
    assert forall|a: int, b: int| 0 <= a < b < t.len() implies #[trigger] t[a].0
        != #[trigger] t[b].0 by {
        if b == s.len() {
            assert(s[a].0 != key);
        }
    }
    lemma_index(t, key, s.len() as int);
    assert forall|k: Seq<u8>| #[trigger] as_map(t).dom().contains(k) == as_map(s).insert(
        key,
        value,
    ).dom().contains(k) by {
        if has_key(t, k) {
            let j = index_of(t, k);
            if j < s.len() {
                assert(s[j].0 == k);
            }
        }
        if has_key(s, k) {
            let j = index_of(s, k);
            assert(t[j].0 == k);
        }
    }
    assert forall|k: Seq<u8>| as_map(t).dom().contains(k) implies #[trigger] as_map(t)[k]
        == as_map(s).insert(key, value)[k] by {
        let j = index_of(t, k);
        lemma_index(t, k, j);
        if j < s.len() {
            lemma_index(s, k, j);
        }
    }
    assert(as_map(t) =~= as_map(s).insert(key, value));
}

proof fn lemma_map_remove(s: Pairs, i: int)
    requires
        distinct(s),
        0 <= i < s.len(),
    ensures
        as_map(s).contains_key(s[i].0),
        as_map(s.remove(i)) == as_map(s).remove(s[i].0),
{
    let t = s.remove(i);
    let key = s[i].0;
    lemma_index(s, key, i);
    lemma_remove_distinct(s, i);
    assert forall|k: Seq<u8>| #[trigger] as_map(t).dom().contains(k) == as_map(s).remove(
        key,
    ).dom().contains(k) by {
        if has_key(t, k) {
            let j = index_of(t, k);
            let j2 = if j < i {
                j
            } else {
                j + 1
            };
            assert(s[j2].0 == k);
            assert(t[j] == s[j2]);
        }
        if has_key(s, k) && k != key {
            let j = index_of(s, k);
            let j2 = if j < i {
                j
            } else {
                j - 1
            };
            assert(t[j2] == s[j]);
            assert(t[j2].0 == k);
        }
    }
    assert forall|k: Seq<u8>| as_map(t).dom().contains(k) implies #[trigger] as_map(t)[k]
        == as_map(s).remove(key)[k] by {
        let j = index_of(t, k);
        let j2 = if j < i {
            j
        } else {
            j + 1
        };
        lemma_index(t, k, j);
        assert(t[j] == s[j2]);
        lemma_index(s, k, j2);
    }
    assert(as_map(t) =~= as_map(s).remove(key));
}

proof fn lemma_map_len(s: Pairs)
    requires
        distinct(s),
    ensures
        as_map(s).dom().finite(),
        as_map(s).dom().len() == s.len(),
    decreases s.len(),
{
    if s.len() == 0 {
        assert(as_map(s).dom() =~= Set::<Seq<u8>>::empty());
    } else {
        let t = s.drop_last();
        let (k, v) = s.last();
        assert(distinct(t));
        assert(!has_key(t, k)) by {
            if has_key(t, k) {
                let j = index_of(t, k);
                assert(s[j].0 == k);
            }
        }
        lemma_map_len(t);
        lemma_map_push(t, k, v);
        assert(t.push((k, v)) =~= s);
        assert(as_map(s).dom() =~= as_map(t).dom().insert(k));
    }
}

/// An update that is not refused is seen by the next lookup of its key.
pub proof fn update_lookup_roundtrip(
    store: StoreModel,
    desc: DescModel,
    key: Seq<u8>,
    value: Seq<u8>,
    flags: u64,
)
    requires
        store.update_error(desc, key, value, flags) is None,
        desc.max_entries > 0,
        store matches StoreModel::Lru(s) ==> distinct(s),
        store matches StoreModel::Array(s) ==> s.len() == desc.max_entries,
    ensures
        store.updated(desc, key, value).found(desc, key) == Ok::<Option<Seq<u8>>, MapErrorModel>(
            Some(value),
        ),
{
    if let StoreModel::Lru(s) = store {
        let room = if !has_key(s, key) && s.len() >= desc.max_entries {
            s.skip(1)
        } else {
            without(s, key)
        };
        lemma_room_distinct(s, desc, key);
        let t = room.push((key, value));
        assert(distinct(t)) by {
            assert forall|a: int, b: int| 0 <= a < b < t.len() implies #[trigger] t[a].0
                != #[trigger] t[b].0 by {
                if b == room.len() {
                    assert(room[a].0 != key);
                }
            }
        }
        lemma_index(t, key, room.len() as int);
    }
}

proof fn lemma_room_distinct(s: Pairs, desc: DescModel, key: Seq<u8>)
    requires
        distinct(s),
        desc.max_entries > 0,
    ensures
        ({
            let room = if !has_key(s, key) && s.len() >= desc.max_entries {
                s.skip(1)
            } else {
                without(s, key)
            };
            distinct(room) && !has_key(room, key)
        }),
{
    let room = if !has_key(s, key) && s.len() >= desc.max_entries {
        s.skip(1)
    } else {
        without(s, key)
    };
    if has_key(s, key) {
        let i = index_of(s, key);
        lemma_remove_distinct(s, i);
        if has_key(room, key) {
            let k = index_of(room, key);
            assert(room[k] == s[if k < i {
                k
            } else {
                k + 1
            }]);
        }
    } else if s.len() >= desc.max_entries {
        if has_key(room, key) {
            let k = index_of(room, key);
            assert(room[k] == s[k + 1]);
        }
        assert forall|a: int, b: int| 0 <= a < b < room.len() implies #[trigger] room[a].0
            != #[trigger] room[b].0 by {
            assert(room[a] == s[a + 1] && room[b] == s[b + 1]);
        }
    }
}

/// A deleted key of a hash or an evicting map is missed by the next lookup,
/// and deleting it again is refused.
pub proof fn delete_then_miss(store: StoreModel, desc: DescModel, key: Seq<u8>)
    requires
        store.delete_error(desc, key) is None,
        store !is Array,
        store matches StoreModel::Lru(s) ==> distinct(s),
    ensures
        store.deleted(desc, key).found(desc, key) == Ok::<Option<Seq<u8>>, MapErrorModel>(None),
        store.deleted(desc, key).delete_error(desc, key) == Some(MapErrorModel::KeyNotFound),
{
    if let StoreModel::Lru(s) = store {
        let i = index_of(s, key);
        let t = s.remove(i);
        if has_key(t, key) {
            let k = index_of(t, key);
            assert(t[k] == s[if k < i {
                k
            } else {
                k + 1
            }]);
        }
    }
}

/// An evicting map never exceeds its capacity, and every entry of it but the
/// least recently used one survives the update of a new key.
pub proof fn lru_capacity_holds(s: Pairs, desc: DescModel, key: Seq<u8>, value: Seq<u8>)
    requires
        distinct(s),
        s.len() <= desc.max_entries,
        desc.max_entries > 0,
    ensures
        match StoreModel::Lru(s).updated(desc, key, value) {
            StoreModel::Lru(t) => {
                &&& t.len() <= desc.max_entries
                &&& t.last() == (key, value)
                &&& forall|i: int|
                    1 <= i < s.len() && s[i].0 != key ==> t.contains(#[trigger] s[i])
                &&& s.len() == desc.max_entries && !has_key(s, key) ==> !has_key(t, s[0].0)
            },
            _ => false,
        },
{
    let room = if !has_key(s, key) && s.len() >= desc.max_entries {
        s.skip(1)
    } else {
        without(s, key)
    };
    let t = room.push((key, value));
    assert forall|i: int| 1 <= i < s.len() && s[i].0 != key implies t.contains(#[trigger] s[i]) by {
        if !has_key(s, key) && s.len() >= desc.max_entries {
            assert(t[i - 1] == s[i]);
        } else if has_key(s, key) {
            let j = index_of(s, key);
            let k = if i < j {
                i
            } else {
                i - 1
            };
            assert(t[k] == s[i]);
        } else {
            assert(t[i] == s[i]);
        }
    }
    if s.len() == desc.max_entries && !has_key(s, key) {
        if has_key(t, s[0].0) {
            let k = index_of(t, s[0].0);
            if k < room.len() {
                assert(t[k] == s[k + 1]);
            }
        }
    }
}

/// The largest descriptor number among descriptors.
pub open spec fn max_fd(descs: Seq<DescModel>) -> i64
    decreases descs.len(),
{
    if descs.len() == 0 {
        i64::MIN
    } else {
        let rest = max_fd(descs.drop_last());
        if descs.last().fd > rest {
            descs.last().fd
        } else {
            rest
        }
    }
}

/// The contents of descriptors.
pub open spec fn descs_of(descs: Seq<MapDesc>) -> Seq<DescModel> {
    descs.map_values(|d: MapDesc| d@)
}

/// The first reason, in order, why descriptors from `i` on are refused as
/// table entries.
pub open spec fn table_error(descs: Seq<DescModel>, i: nat) -> Option<MapErrorModel>
    decreases descs.len() - i,
{
    if i >= descs.len() {
        None
    } else {
        let d = descs[i as int];
        if d.fd < 0 {
            Some(MapErrorModel::BadFd { fd: d.fd })
        } else if exists|k: int| 0 <= k < i && (#[trigger] descs[k]).fd == d.fd {
            Some(MapErrorModel::DuplicateFd { fd: d.fd })
        } else if d.error() is Some {
            d.error()
        } else {
            table_error(descs, i + 1)
        }
    }
}

/// Why a list of descriptors makes no table, if it makes none.
pub open spec fn stores_error(descs: Seq<DescModel>) -> Option<MapErrorModel> {
    if descs.len() == 0 {
        None
    } else if max_fd(descs) <= 0 {
        Some(MapErrorModel::BadFd { fd: max_fd(descs) })
    } else if max_fd(descs) > MAX_MAP_FD {
        Some(
            MapErrorModel::InvalidDesc(
                "fd "@ + int_text(max_fd(descs) as int) + " exceeds maximum "@ + int_text(
                    MAX_MAP_FD as int,
                ),
            ),
        )
    } else {
        table_error(descs, 0)
    }
}

/// Whether a table entry is the fresh store of the descriptor with the
/// entry's number among the first `n` descriptors, or empty if there is none.
pub open spec fn entry_matches(
    entry: Option<MapStore>,
    fd: int,
    descs: Seq<DescModel>,
    n: nat,
) -> bool {
    match entry {
        Some(store) => {
            &&& store.wf()
            &&& exists|k: int|
                0 <= k < n && (#[trigger] descs[k]).fd == fd && store.descriptor()@ == descs[k]
                    && store@ == descs[k].contents()
        },
        None => forall|k: int| 0 <= k < n ==> (#[trigger] descs[k]).fd != fd,
    }
}

/// Builds the runtime table, indexed by descriptor number.
pub fn build_stores(descs: Vec<MapDesc>) -> (r: Result<Vec<Option<MapStore>>, MapError>)
    requires
        forall|i: int| 0 <= i < descs@.len() ==> ascending((#[trigger] descs@[i])@.initial),
    ensures
        match r {
            Ok(table) => {
                let models = descs_of(descs@);
                &&& stores_error(models) is None
                &&& descs@.len() == 0 ==> table@.len() == 0
                &&& descs@.len() > 0 ==> table@.len() == max_fd(models) + 1
                &&& forall|fd: int|
                    0 <= fd < table@.len() ==> entry_matches(
                        #[trigger] table@[fd],
                        fd,
                        models,
                        models.len(),
                    )
            },
            Err(e) => stores_error(descs_of(descs@)) == Some(e@),
        },
{
    let ghost models = descs_of(descs@);
    if descs.len() == 0 {
        let empty: Vec<Option<MapStore>> = Vec::new();
        return Ok(empty);
    }
    let mut highest: i64 = i64::MIN;
    let mut i: usize = 0;
    assert(models.take(0) =~= Seq::<DescModel>::empty());
    while i < descs.len()
        invariant
            i <= descs@.len(),
            models == descs_of(descs@),
            highest == max_fd(models.take(i as int)),
        decreases descs@.len() - i,
    {
        assert(models.take(i + 1).drop_last() =~= models.take(i as int));
        if descs[i].fd > highest {
            highest = descs[i].fd;
        }
        i = i + 1;
    }
    assert(models.take(i as int) =~= models);
    if highest <= 0 {
        return Err(MapError::BadFd { fd: highest });
    }
    if highest > MAX_MAP_FD {
        let mut s = String::from_str("fd ");
        push_int(&mut s, highest);
        s.append(" exceeds maximum ");
        push_int(&mut s, MAX_MAP_FD);
        return Err(MapError::InvalidDesc(s));
    }
    let len: usize = highest as usize;
    let mut table: Vec<Option<MapStore>> = Vec::new();
    let mut n: usize = 0;
    while n < len + 1
        invariant
            n <= len + 1,
            len <= 0xffff,
            table@.len() == n,
            forall|k: int| 0 <= k < n ==> (#[trigger] table@[k]) is None,
        decreases len + 1 - n,
    {
        table.push(None);
        n = n + 1;
    }
    let mut i: usize = 0;
    while i < descs.len()
        invariant
            i <= descs@.len(),
            models == descs_of(descs@),
            forall|k: int| 0 <= k < descs@.len() ==> ascending((#[trigger] descs@[k])@.initial),
            len == max_fd(models),
            len <= 0xffff,
            table@.len() == len + 1,
            stores_error(models) == table_error(models, i as nat),
            forall|fd: int|
                0 <= fd < table@.len() ==> entry_matches(
                    #[trigger] table@[fd],
                    fd,
                    models,
                    i as nat,
                ),
        decreases descs@.len() - i,
    {
        let fd: i64 = descs[i].fd;
        assert(models[i as int] == descs@[i as int]@);
        if fd < 0 {
            return Err(MapError::BadFd { fd });
        }
        proof {
            lemma_max_fd(models, i as int);
        }
        let idx: usize = fd as usize;
        if table[idx].is_some() {
            assert(entry_matches(table@[idx as int], idx as int, models, i as nat));
            return Err(MapError::DuplicateFd { fd });
        }
        assert(entry_matches(table@[idx as int], idx as int, models, i as nat));
        let store = match MapStore::new(descs[i].duplicate()) {
            Ok(store) => store,
            Err(e) => {
                return Err(e);
            },
        };
        let ghost before = table@;
        table.set(idx, Some(store));
        proof {
            assert forall|f: int| 0 <= f < table@.len() implies entry_matches(
                #[trigger] table@[f],
                f,
                models,
                (i + 1) as nat,
            ) by {
                assert(entry_matches(before[f], f, models, i as nat));
                if f == idx {
                    assert(models[i as int].fd == f);
                }
            }
        }
        i = i + 1;
    }
    Ok(table)
}

proof fn lemma_max_fd(descs: Seq<DescModel>, i: int)
    requires
        0 <= i < descs.len(),
    ensures
        descs[i].fd <= max_fd(descs),
    decreases descs.len(),
{
    if i < descs.len() - 1 {
        lemma_max_fd(descs.drop_last(), i);
    }
}

} // verus!
