use vstd::prelude::*;

verus! {

/// The lowercase hexadecimal digit for `d < 16`.
pub open spec fn hex_digit(d: int) -> char {
    seq!['0', '1', '2', '3', '4', '5', '6', '7', '8', '9', 'a', 'b', 'c', 'd', 'e', 'f'][d]
}

/// Decimal rendering of a natural number, most significant digit first, no leading zeros.
pub open spec fn decimal_text(n: nat) -> Seq<char>
    decreases n,
{
    if n < 10 {
        seq![hex_digit(n as int)]
    } else {
        decimal_text(n / 10).push(hex_digit((n % 10) as int))
    }
}

/// Two lowercase hex digits per byte, high nibble first.
pub open spec fn hex_text(bytes: Seq<u8>) -> Seq<char>
    decreases bytes.len(),
{
    if bytes.len() == 0 {
        Seq::empty()
    } else {
        hex_text(bytes.drop_last()) + seq![
            hex_digit((bytes.last() / 16) as int),
            hex_digit((bytes.last() % 16) as int),
        ]
    }
}

/// A lowercase hexadecimal digit.
pub open spec fn is_hex_digit(c: char) -> bool {
    ('0' <= c && c <= '9') || ('a' <= c && c <= 'f')
}

/// The text of a SHA-256 digest: 64 lowercase hexadecimal digits.
pub open spec fn digest_text_shaped(t: Seq<char>) -> bool {
    &&& t.len() == 64
    &&& forall|i: int| 0 <= i < t.len() ==> is_hex_digit(#[trigger] t[i])
}

/// Every digit `hex_digit` gives is a lowercase hexadecimal digit.
proof fn lemma_hex_digit(d: int)
    requires
        0 <= d < 16,
    ensures
        is_hex_digit(hex_digit(d)),
{
    let digits = seq!['0', '1', '2', '3', '4', '5', '6', '7', '8', '9', 'a', 'b', 'c', 'd', 'e', 'f'];
    assert(hex_digit(d) == digits[d]);
}

/// The hex text of `bytes` has two lowercase hexadecimal digits per byte.
pub proof fn lemma_hex_text_shape(bytes: Seq<u8>)
    ensures
        hex_text(bytes).len() == 2 * bytes.len(),
        forall|i: int| 0 <= i < hex_text(bytes).len() ==> is_hex_digit(#[trigger] hex_text(bytes)[i]),
    decreases bytes.len(),
{
    if bytes.len() > 0 {
        let p = bytes.drop_last();
        lemma_hex_text_shape(p);
        let hi = hex_digit((bytes.last() / 16) as int);
        let lo = hex_digit((bytes.last() % 16) as int);
        lemma_hex_digit((bytes.last() / 16) as int);
        lemma_hex_digit((bytes.last() % 16) as int);
        let t = hex_text(bytes);
        assert(t == hex_text(p) + seq![hi, lo]);
        assert forall|i: int| 0 <= i < t.len() implies is_hex_digit(#[trigger] t[i]) by {
            if i < hex_text(p).len() {
                assert(t[i] == hex_text(p)[i]);
            } else if i == hex_text(p).len() {
                assert(t[i] == hi);
            } else {
                assert(t[i] == lo);
            }
        }
    }
}

/// A one-character string holding the hex digit `d`.
fn digit_text(d: u64) -> (s: &'static str)
    requires
        d < 16,
    ensures
        s@ == seq![hex_digit(d as int)],
{
    let digits = "0123456789abcdef";
    proof {
        reveal_strlit("0123456789abcdef");
    }
    let s = digits.substring_ascii(d as usize, d as usize + 1);
    assert(s@ =~= seq![hex_digit(d as int)]);
    s
}

/// Decimal rendering of `n`, as `n.to_string()` writes it.
pub fn decimal(n: u64) -> (s: String)
    ensures
        s@ == decimal_text(n as nat),
    decreases n,
{
    if n < 10 {
        let mut s = String::new();
        s.append(digit_text(n));
        s
    } else {
        let mut s = decimal(n / 10);
        s.append(digit_text(n % 10));
        s
    }
}

/// Lowercase hexadecimal rendering of `bytes`, as `{:x}` writes a digest.
pub fn hex_lower(bytes: &[u8]) -> (s: String)
    ensures
        s@ == hex_text(bytes@),
{
    let mut s = String::new();
    let mut i: usize = 0;
    while i < bytes.len()
        invariant
            i <= bytes.len(),
            s@ == hex_text(bytes@.subrange(0, i as int)),
        decreases bytes.len() - i,
    {
        let b = bytes[i];
        s.append(digit_text((b / 16) as u64));
        s.append(digit_text((b % 16) as u64));
        proof {
            let pre = bytes@.subrange(0, i as int + 1);
            assert(pre.drop_last() =~= bytes@.subrange(0, i as int));
            assert(pre.last() == b);
        }
        i = i + 1;
    }
    assert(bytes@.subrange(0, bytes@.len() as int) =~= bytes@);
    s
}

} // verus!
