//! The identity of a node: thirty-two bytes, ordered byte by byte.

use crate::error::TurnoutError;
use vstd::prelude::*;

verus! {

/// The error of the decoder of the crate `hex`.
#[verifier::external_type_specification]
#[verifier::external_body]
pub struct ExFromHexError(hex::FromHexError);

/// The sixteen hexadecimal digits, in lower case.
pub open spec fn hex_digits() -> Seq<char> {
    seq!['0', '1', '2', '3', '4', '5', '6', '7', '8', '9', 'a', 'b', 'c', 'd', 'e', 'f']
}

/// The value of a hexadecimal digit, in lower or upper case; -1 for any other
/// character.
pub open spec fn hex_value(c: char) -> int {
    if c == '0' {
        0
    } else if c == '1' {
        1
    } else if c == '2' {
        2
    } else if c == '3' {
        3
    } else if c == '4' {
        4
    } else if c == '5' {
        5
    } else if c == '6' {
        6
    } else if c == '7' {
        7
    } else if c == '8' {
        8
    } else if c == '9' {
        9
    } else if c == 'a' || c == 'A' {
        10
    } else if c == 'b' || c == 'B' {
        11
    } else if c == 'c' || c == 'C' {
        12
    } else if c == 'd' || c == 'D' {
        13
    } else if c == 'e' || c == 'E' {
        14
    } else if c == 'f' || c == 'F' {
        15
    } else {
        -1
    }
}

/// `text` is the hexadecimal form of thirty-two bytes: sixty-four digits.
pub open spec fn is_hex_text(text: Seq<char>) -> bool {
    &&& text.len() == 64
    &&& forall|i: int| 0 <= i < 64 ==> hex_value(#[trigger] text[i]) >= 0
}

/// `bytes` are the thirty-two bytes that `text` is the hexadecimal form of:
/// each byte is sixteen times its first digit, and its second.
pub open spec fn decodes_to(text: Seq<char>, bytes: Seq<u8>) -> bool {
    &&& bytes.len() == 32
    &&& forall|i: int|
        0 <= i < 32 ==> #[trigger] bytes[i] == 16 * hex_value(text[2 * i]) + hex_value(
            text[2 * i + 1],
        )
}

/// Calls `from_hex` of the crate `hex` for an array of thirty-two bytes. The
/// claim is that it succeeds on the texts of sixty-four hexadecimal digits
/// and on no others, and that each byte it returns has the value of its two
/// digits.
#[verifier::external_body]
fn decode_hex(text: &String) -> (r: Result<[u8; 32], hex::FromHexError>)
    ensures
        r is Ok <==> is_hex_text(text@),
        r is Ok ==> decodes_to(text@, r->Ok_0@),
{
    let r: Result<[u8; 32], hex::FromHexError> = hex::FromHex::from_hex(text);
    r
}

/// Calls `encode` of the crate `hex`. The claim is that the text has two
/// digits for each byte, in lower case: first the digit of the byte divided
/// by sixteen, then that of the remainder.
#[verifier::external_body]
fn encode_hex(bytes: &[u8; 32]) -> (r: String)
    ensures
        r@.len() == 64,
        forall|i: int| 0 <= i < 32 ==> #[trigger] r@[2 * i] == hex_digits()[bytes@[i] as int / 16],
        forall|i: int|
            0 <= i < 32 ==> #[trigger] r@[2 * i + 1] == hex_digits()[bytes@[i] as int % 16],
{
    hex::encode(bytes)
}

/// How one address stands to another in the order of addresses.
#[derive(Clone, Copy, Debug)]
pub enum Place {
    Before,
    Same,
    After,
}

/// The identity of a node of the graph.
#[derive(Clone, Copy, Debug, PartialEq, Eq, PartialOrd, Ord)]
pub struct Address {
    pub bytes: [u8; 32],
}

impl View for Address {
    type V = Seq<u8>;

    open spec fn view(&self) -> Seq<u8> {
        self.bytes@
    }
}

/// `i` is the first index at which `a` and `b` hold different bytes.
pub open spec fn first_difference(a: Seq<u8>, b: Seq<u8>, i: int) -> bool {
    &&& 0 <= i < a.len()
    &&& i < b.len()
    &&& a[i] != b[i]
    &&& forall|j: int| 0 <= j < i ==> a[j] == b[j]
}

/// The value of the first eight bytes of `bytes`, read big-endian.
pub open spec fn prefix_value(bytes: Seq<u8>, n: nat) -> nat
    decreases n,
{
    if n == 0 {
        0
    } else {
        prefix_value(bytes, (n - 1) as nat) * 256 + bytes[n - 1] as nat
    }
}

impl Address {
    /// The order of addresses: at the first byte where two addresses differ,
    /// the smaller byte comes first.
    pub open spec fn precedes(self, other: Address) -> bool {
        exists|i: int| #[trigger] first_difference(self@, other@, i) && self@[i] < other@[i]
    }

    /// An address made of the given bytes.
    pub fn from_bytes(value: [u8; 32]) -> (r: Address)
        ensures
            r.bytes == value,
            r@ == value@,
    {
        Address { bytes: value }
    }

    /// The address that `value` is the hexadecimal form of. Digits in lower
    /// and upper case are taken; a text that is not made of sixty-four
    /// hexadecimal digits is an error.
    pub fn from_hex(value: String) -> (r: Result<Address, TurnoutError>)
        ensures
            r is Ok <==> is_hex_text(value@),
            r is Ok ==> decodes_to(value@, r->Ok_0@),
            r is Err ==> r->Err_0 == TurnoutError::AddressConversion,
    {
        match decode_hex(&value) {
            Ok(bytes) => Ok(Address { bytes }),
            Err(_) => Err(TurnoutError::AddressConversion),
        }
    }

    /// The hexadecimal form of the address: sixty-four digits in lower case.
    pub fn to_hex(&self) -> (r: String)
        ensures
            is_hex_text(r@),
            decodes_to(r@, self@),
            forall|i: int| 0 <= i < 64 ==> hex_digits().contains(#[trigger] r@[i]),
    {
        let r = encode_hex(&self.bytes);
        proof {
            assert forall|i: int| 0 <= i < 64 implies hex_value(#[trigger] r@[i]) >= 0
                && hex_digits().contains(r@[i]) by {
                let b = self.bytes@[i / 2] as int;
                if i % 2 == 0 {
                    assert(r@[2 * (i / 2)] == hex_digits()[b / 16]);
                    lemma_hex_digit_value(b / 16);
                } else {
                    assert(r@[2 * (i / 2) + 1] == hex_digits()[b % 16]);
                    lemma_hex_digit_value(b % 16);
                }
            }
            assert forall|i: int| 0 <= i < 32 implies #[trigger] self@[i] == 16 * hex_value(
                r@[2 * i],
            ) + hex_value(r@[2 * i + 1]) by {
                let b = self.bytes@[i] as int;
                lemma_hex_digit_value(b / 16);
                lemma_hex_digit_value(b % 16);
            }
        }
        r
    }

    /// The bytes of the address.
    pub fn as_bytes(&self) -> (r: &[u8])
        ensures
            r@ == self@,
            r@.len() == 32,
    {
        let r = self.bytes.as_slice();
        r
    }

    /// Where `self` stands to `other` in the order of addresses.
    pub fn place(&self, other: &Address) -> (r: Place)
        ensures
            r is Before <==> self.precedes(*other),
            r is Same <==> *self == *other,
            r is After <==> other.precedes(*self),
    {
        let mut i: usize = 0;
        while i < 32
            invariant
                0 <= i <= 32,
                forall|j: int| 0 <= j < i ==> self@[j] == other@[j],
            decreases 32 - i,
        {
            let a: u8 = self.bytes[i];
            let b: u8 = other.bytes[i];
            if a < b {
                proof {
                    assert(first_difference(self@, other@, i as int));
                    lemma_precedes_asymmetric(*self, *other);
                }
                return Place::Before;
            }
            if b < a {
                proof {
                    assert(first_difference(other@, self@, i as int));
                    lemma_precedes_asymmetric(*other, *self);
                }
                return Place::After;
            }
            i = i + 1;
        }
        proof {
            assert forall|j: int| 0 <= j < 32 implies self.bytes[j] == other.bytes[j] by {
                assert(self@[j] == other@[j]);
            }
            assert(self.bytes =~= other.bytes);
            lemma_precedes_irreflexive(*self);
        }
        Place::Same
    }

    /// Whether the two addresses are the same.
    pub fn same(&self, other: &Address) -> (r: bool)
        ensures
            r <==> *self == *other,
    {
        match self.place(other) {
            Place::Same => true,
            _ => false,
        }
    }

    /// The first eight bytes as one big-endian number: the word by which a
    /// hash table may spread addresses.
    pub fn hash_word(&self) -> (r: u64)
        ensures
            r == prefix_value(self@, 8),
    {
        let mut r: u64 = 0;
        let mut i: usize = 0;
        while i < 8
            invariant
                0 <= i <= 8,
                r == prefix_value(self@, i as nat),
                r < pow256(i as nat),
            decreases 8 - i,
        {
            proof {
                lemma_pow256_bounds(i as nat);
            }
            r = r * 256 + self.bytes[i] as u64;
            i = i + 1;
        }
        r
    }
}

impl Default for Address {
    /// The address of thirty-two zero bytes.
    fn default() -> (r: Address)
        ensures
            forall|i: int| 0 <= i < 32 ==> r@[i] == 0u8,
    {
        Address { bytes: [0u8; 32] }
    }
}

/// A text is the hexadecimal form of one address at most, so that an address
/// comes back from its hexadecimal form as it was.
pub proof fn lemma_decoding_unique(text: Seq<char>, a: Seq<u8>, b: Seq<u8>)
    requires
        decodes_to(text, a),
        decodes_to(text, b),
    ensures
        a == b,
{
    assert(a =~= b);
}

/// The value of the `n`-th hexadecimal digit is `n`.
pub proof fn lemma_hex_digit_value(n: int)
    requires
        0 <= n < 16,
    ensures
        hex_value(hex_digits()[n]) == n,
        hex_digits().contains(hex_digits()[n]),
{
    assert(hex_digits().len() == 16);
}

/// 256 to the power `n`.
pub open spec fn pow256(n: nat) -> nat
    decreases n,
{
    if n == 0 {
        1
    } else {
        256 * pow256((n - 1) as nat)
    }
}

proof fn lemma_pow256_bounds(n: nat)
    requires
        n < 8,
    ensures
        pow256(n) * 256 == pow256(n + 1),
        pow256(n + 1) <= 0x1_0000_0000_0000_0000,
    decreases n,
{
    reveal_with_fuel(pow256, 10);
}

/// Two addresses have at most one first difference.
pub proof fn lemma_first_difference_unique(a: Seq<u8>, b: Seq<u8>, i: int, j: int)
    requires
        first_difference(a, b, i),
        first_difference(a, b, j),
    ensures
        i == j,
{
    if i < j {
        assert(a[i] == b[i]);
    }
    if j < i {
        assert(a[j] == b[j]);
    }
}

/// No address precedes itself.
pub proof fn lemma_precedes_irreflexive(a: Address)
    ensures
        !a.precedes(a),
{
}

/// Of two addresses at most one precedes the other, and then they differ.
pub proof fn lemma_precedes_asymmetric(a: Address, b: Address)
    requires
        a.precedes(b),
    ensures
        !b.precedes(a),
        a != b,
{
    let i = choose|i: int| #[trigger] first_difference(a@, b@, i) && a@[i] < b@[i];
    if b.precedes(a) {
        let j = choose|j: int| #[trigger] first_difference(b@, a@, j) && b@[j] < a@[j];
        assert(first_difference(a@, b@, j));
        lemma_first_difference_unique(a@, b@, i, j);
    }
}

/// The order of addresses is transitive.
pub proof fn lemma_precedes_transitive(a: Address, b: Address, c: Address)
    requires
        a.precedes(b),
        b.precedes(c),
    ensures
        a.precedes(c),
{
    let i = choose|i: int| #[trigger] first_difference(a@, b@, i) && a@[i] < b@[i];
    let j = choose|j: int| #[trigger] first_difference(b@, c@, j) && b@[j] < c@[j];
    let k = if i <= j { i } else { j };
    assert(first_difference(a@, c@, k));
}

/// The order of addresses is total: two different addresses are ordered.
pub proof fn lemma_precedes_total(a: Address, b: Address)
    requires
        a != b,
    ensures
        a.precedes(b) || b.precedes(a),
{
    assert(!(a.bytes =~= b.bytes));
    lemma_difference_exists(a@, b@, 0);
    let i = choose|i: int| first_difference(a@, b@, i);
    if a@[i] < b@[i] {
    } else {
        assert(first_difference(b@, a@, i));
    }
}

proof fn lemma_difference_exists(a: Seq<u8>, b: Seq<u8>, n: int)
    requires
        a.len() == b.len(),
        0 <= n <= a.len(),
        forall|j: int| 0 <= j < n ==> a[j] == b[j],
        exists|j: int| 0 <= j < a.len() && a[j] != b[j],
    ensures
        exists|i: int| first_difference(a, b, i),
    decreases a.len() - n,
{
    if n < a.len() {
        if a[n] != b[n] {
            assert(first_difference(a, b, n));
        } else {
            lemma_difference_exists(a, b, n + 1);
        }
    }
}

} // verus!
