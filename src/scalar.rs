use vstd::prelude::*;

verus! {

/// An ASCII decimal digit, `'0'..='9'`.
pub open spec fn is_digit(b: u8) -> bool {
    48 <= b <= 57
}

pub open spec fn all_digits(s: Seq<u8>) -> bool {
    forall|i: int| 0 <= i < s.len() ==> is_digit(#[trigger] s[i])
}

/// The number that the ASCII decimal digits `s` spell, most significant first.
pub open spec fn decimal_value(s: Seq<u8>) -> nat
    decreases s.len(),
{
    if s.len() == 0 {
        0
    } else {
        decimal_value(s.drop_last()) * 10 + (s.last() - 48) as nat
    }
}

/// `n` in ASCII decimal, with no leading zero unless `n` is zero.
pub open spec fn decimal_digits(n: nat) -> Seq<u8>
    decreases n,
{
    if n < 10 {
        seq![(48 + n) as u8]
    } else {
        decimal_digits(n / 10).push((48 + n % 10) as u8)
    }
}

/// What `parse_u32` accepts: one or more digits whose value fits in a `u32`.
pub open spec fn decimal_of(s: Seq<u8>) -> Option<u32> {
    if s.len() > 0 && all_digits(s) && decimal_value(s) <= u32::MAX {
        Some(decimal_value(s) as u32)
    } else {
        None
    }
}

pub open spec fn pow10(k: nat) -> nat
    decreases k,
{
    if k == 0 {
        1
    } else {
        10 * pow10((k - 1) as nat)
    }
}

/// The value of a field that holds exactly one decimal digit.
pub open spec fn digit_of(s: Seq<u8>) -> Option<u8> {
    if s.len() == 1 && is_digit(s[0]) {
        Some((s[0] - 48) as u8)
    } else {
        None
    }
}

/// The value of a hex digit of either case.
pub open spec fn hex_value(c: u8) -> Option<u8> {
    if 48 <= c <= 57 {
        Some((c - 48) as u8)
    } else if 97 <= c <= 102 {
        Some((c - 87) as u8)
    } else if 65 <= c <= 70 {
        Some((c - 55) as u8)
    } else {
        None
    }
}

/// The lowercase hex digit for a value below 16.
pub open spec fn hex_char(v: u8) -> u8 {
    if v < 10 {
        (48 + v) as u8
    } else {
        (87 + v) as u8
    }
}

/// Lowercase hex of `b`: two digits per byte, high nibble first.
pub open spec fn hex_of(b: Seq<u8>) -> Seq<u8> {
    Seq::new(
        2 * b.len(),
        |i: int|
            if i % 2 == 0 {
                hex_char(b[i / 2] / 16)
            } else {
                hex_char(b[i / 2] % 16)
            },
    )
}

pub open spec fn is_hex(h: Seq<u8>) -> bool {
    &&& h.len() % 2 == 0
    &&& forall|i: int| 0 <= i < h.len() ==> (#[trigger] hex_value(h[i])).is_some()
}

/// The bytes that the hex string `h` spells (meaningful when `is_hex(h)`).
pub open spec fn bytes_of_hex(h: Seq<u8>) -> Seq<u8> {
    Seq::new(
        h.len() / 2,
        |i: int| (hex_value(h[2 * i]).unwrap() * 16 + hex_value(h[2 * i + 1]).unwrap()) as u8,
    )
}

/// The key `prefix` followed by `index` in decimal, as in `notary_3`.
pub open spec fn indexed_key(prefix: Seq<u8>, index: nat) -> Seq<u8> {
    prefix + decimal_digits(index)
}

pub proof fn lemma_decimal_digits_len(n: nat)
    ensures
        decimal_digits(n).len() >= 1,
        decimal_digits(n).len() == 1 <==> n < 10,
        all_digits(decimal_digits(n)),
    decreases n,
{
    if n >= 10 {
        lemma_decimal_digits_len(n / 10);
    }
}

pub proof fn lemma_decimal_digits_bound(n: nat, k: nat)
    requires
        k >= 1,
        n < pow10(k),
    ensures
        decimal_digits(n).len() <= k,
    decreases n,
{
    if n >= 10 {
        assert(k >= 2) by {
            if k == 1 {
                assert(pow10(1) == 10 * pow10(0));
            }
        }
        let j = (k - 1) as nat;
        assert(pow10(k) == 10 * pow10(j));
        assert(n / 10 < pow10(j)) by (nonlinear_arith)
            requires
                n < 10 * pow10(j),
        ;
        lemma_decimal_digits_bound(n / 10, j);
    }
}

/// A `u32` takes at most ten decimal digits.
pub proof fn lemma_u32_digits(n: u32)
    ensures
        1 <= decimal_digits(n as nat).len() <= 10,
{
    reveal_with_fuel(pow10, 11);
    lemma_decimal_digits_len(n as nat);
    lemma_decimal_digits_bound(n as nat, 10);
}

/// A prefix of a digit string is worth no more than the whole.
pub proof fn lemma_decimal_value_prefix(s: Seq<u8>, j: int)
    requires
        0 <= j <= s.len(),
        all_digits(s),
    ensures
        decimal_value(s.take(j)) <= decimal_value(s),
    decreases s.len(),
{
    if j < s.len() {
        let t = s.drop_last();
        assert(t.take(j) =~= s.take(j));
        lemma_decimal_value_prefix(t, j);
    } else {
        assert(s.take(j) =~= s);
    }
}

/// Formatting then parsing gives the number back.
pub proof fn lemma_decimal_round_trip(n: nat)
    ensures
        all_digits(decimal_digits(n)),
        decimal_value(decimal_digits(n)) == n,
    decreases n,
{
    lemma_decimal_digits_len(n);
    if n >= 10 {
        lemma_decimal_round_trip(n / 10);
        assert(decimal_digits(n).drop_last() =~= decimal_digits(n / 10));
        let d = decimal_digits(n);
        assert(n % 10 < 10);
        assert(d.last() == (48 + n % 10) as u8);
        assert((d.last() - 48) as nat == n % 10);
        assert(decimal_value(d) == decimal_value(d.drop_last()) * 10 + (d.last() - 48) as nat);
        assert(n == (n / 10) * 10 + n % 10);
    } else {
        let d = decimal_digits(n);
        assert(d.drop_last() =~= Seq::<u8>::empty());
        assert(decimal_value(d) == decimal_value(d.drop_last()) * 10 + (d.last() - 48) as nat);
    }
}

/// Parsing accepts what `format_u32` writes and returns the formatted number.
pub proof fn lemma_parse_format_round_trip(n: u32)
    ensures
        decimal_of(decimal_digits(n as nat)) == Some(n),
{
    lemma_decimal_round_trip(n as nat);
    lemma_decimal_digits_len(n as nat);
}

/// Hex-encoding then decoding gives the bytes back.
pub proof fn lemma_hex_round_trip(b: Seq<u8>)
    ensures
        is_hex(hex_of(b)),
        bytes_of_hex(hex_of(b)) =~= b,
{
    let h = hex_of(b);
    assert forall|i: int| 0 <= i < h.len() implies (#[trigger] hex_value(h[i])).is_some() by {
        let x = b[i / 2];
        assert(x / 16 < 16 && x % 16 < 16) by (bit_vector);
    }
    assert forall|i: int| 0 <= i < b.len() implies #[trigger] bytes_of_hex(h)[i] == b[i] by {
        let x = b[i];
        assert(h[2 * i] == hex_char(b[(2 * i) / 2] / 16));
        assert(h[2 * i + 1] == hex_char(b[(2 * i + 1) / 2] % 16));
        assert((2 * i) / 2 == i && (2 * i + 1) / 2 == i);
        assert(x / 16 < 16 && x % 16 < 16) by (bit_vector);
        assert((x / 16) * 16 + x % 16 == x) by (bit_vector);
    }
}

/// Parses a field that holds exactly one ASCII decimal digit.
pub fn parse_u8_digit(data: &[u8]) -> (r: Option<u8>)
    ensures
        r == digit_of(data@),
{
    if data.len() == 1 && data[0] >= 48 && data[0] <= 57 {
        Some(data[0] - 48)
    } else {
        None
    }
}

/// Parses one or more ASCII decimal digits; fails on anything else and on a
/// value above `u32::MAX`.
pub fn parse_u32(data: &[u8]) -> (r: Option<u32>)
    ensures
        r == decimal_of(data@),
{
    if data.len() == 0 {
        return None;
    }
    let mut result: u32 = 0;
    let mut i: usize = 0;
    while i < data.len()
        invariant
            0 <= i <= data@.len(),
            all_digits(data@.take(i as int)),
            result as nat == decimal_value(data@.take(i as int)),
        decreases data@.len() - i,
    {
        let b = data[i];
        if b < 48 || b > 57 {
            return None;
        }
        let ghost t = data@.take(i as int + 1);
        assert(t.drop_last() =~= data@.take(i as int));
        assert(all_digits(t));
        match result.checked_mul(10) {
            None => {
                assert(all_digits(data@) ==> decimal_value(t) <= decimal_value(data@)) by {
                    if all_digits(data@) {
                        lemma_decimal_value_prefix(data@, i as int + 1);
                    }
                }
                return None;
            },
            Some(m) => match m.checked_add((b - 48) as u32) {
                None => {
                    assert(all_digits(data@) ==> decimal_value(t) <= decimal_value(data@)) by {
                        if all_digits(data@) {
                            lemma_decimal_value_prefix(data@, i as int + 1);
                        }
                    }
                    return None;
                },
                Some(v) => {
                    result = v;
                },
            },
        }
        i = i + 1;
    }
    assert(data@.take(data@.len() as int) =~= data@);
    Some(result)
}

/// Writes `value` in ASCII decimal at the start of `out` and returns the
/// number of bytes written; writes nothing and returns 0 when `out` is too
/// short for all the digits.
pub fn format_u32(value: u32, out: &mut [u8]) -> (r: usize)
    ensures
        final(out)@.len() == old(out)@.len(),
        decimal_digits(value as nat).len() <= old(out)@.len() ==> r == decimal_digits(
            value as nat,
        ).len() && final(out)@ == decimal_digits(value as nat) + old(out)@.skip(r as int),
        decimal_digits(value as nat).len() > old(out)@.len() ==> r == 0 && final(out)@ == old(
            out,
        )@,
{
    proof {
        lemma_u32_digits(value);
    }
    let ghost digits = decimal_digits(value as nat);
    let mut len: usize = 1;
    let mut n: u32 = value;
    while n >= 10
        invariant
            digits == decimal_digits(value as nat),
            digits.len() <= 10,
            1 <= len,
            digits.len() == len - 1 + decimal_digits(n as nat).len(),
        decreases n,
    {
        proof {
            lemma_decimal_digits_len((n / 10) as nat);
        }
        n = n / 10;
        len = len + 1;
    }
    if len > out.len() {
        return 0;
    }
    let ghost orig = out@;
    let mut i: usize = len;
    let mut v: u32 = value;
    while i > 0
        invariant
            0 <= i <= len <= out@.len(),
            len == digits.len(),
            digits == decimal_digits(value as nat),
            out@.len() == orig.len(),
            i > 0 ==> decimal_digits(v as nat).len() == i,
            i > 0 ==> digits == decimal_digits(v as nat) + out@.subrange(i as int, len as int),
            i == 0 ==> digits == out@.subrange(0, len as int),
            forall|j: int| len <= j < out@.len() ==> out@[j] == orig[j],
        decreases i,
    {
        proof {
            lemma_decimal_digits_len(v as nat);
            lemma_decimal_digits_len((v / 10) as nat);
        }
        let ghost before = out@;
        let c: u8 = 48 + (v % 10) as u8;
        out[i - 1] = c;
        proof {
            if v >= 10 {
                assert(decimal_digits(v as nat) == decimal_digits((v / 10) as nat).push(c));
                assert(out@.subrange(i - 1, len as int) =~= seq![c] + before.subrange(
                    i as int,
                    len as int,
                ));
            } else {
                assert(out@.subrange(0, len as int) =~= seq![c] + before.subrange(
                    1,
                    len as int,
                ));
            }
        }
        v = v / 10;
        i = i - 1;
    }
    assert(out@ =~= digits + orig.skip(len as int));
    len
}

/// The value of one ASCII hex digit of either case.
pub fn hex_digit(c: u8) -> (r: Option<u8>)
    ensures
        r == hex_value(c),
{
    if c >= 48 && c <= 57 {
        Some(c - 48)
    } else if c >= 97 && c <= 102 {
        Some(c - 87)
    } else if c >= 65 && c <= 70 {
        Some(c - 55)
    } else {
        None
    }
}

fn nibble_char(v: u8) -> (r: u8)
    requires
        v < 16,
    ensures
        r == hex_char(v),
{
    if v < 10 {
        48 + v
    } else {
        87 + v
    }
}

/// Writes `input` as lowercase hex at the start of `out`; fails, writing
/// nothing, when `out` is shorter than twice the input.
pub fn encode_hex(input: &[u8], out: &mut [u8]) -> (r: Option<usize>)
    ensures
        final(out)@.len() == old(out)@.len(),
        2 * input@.len() <= old(out)@.len() ==> r == Some((2 * input@.len()) as usize)
            && final(out)@ == hex_of(input@) + old(out)@.skip(2 * input@.len() as int),
        2 * input@.len() > old(out)@.len() ==> r is None && final(out)@ == old(out)@,
{
    if input.len() > out.len() / 2 {
        return None;
    }
    let needed = input.len() * 2;
    let ghost orig = out@;
    let mut i: usize = 0;
    while i < input.len()
        invariant
            0 <= i <= input@.len(),
            needed == 2 * input@.len(),
            needed <= out@.len(),
            out@.len() == orig.len(),
            forall|j: int| 0 <= j < 2 * i ==> out@[j] == hex_of(input@)[j],
            forall|j: int| needed <= j < out@.len() ==> out@[j] == orig[j],
        decreases input@.len() - i,
    {
        let byte = input[i];
        assert(byte / 16 < 16 && byte % 16 < 16) by (bit_vector);
        out[2 * i] = nibble_char(byte / 16);
        out[2 * i + 1] = nibble_char(byte % 16);
        proof {
            assert((2 * i as int) / 2 == i as int && (2 * i as int + 1) / 2 == i as int);
            assert((2 * i as int) % 2 == 0 && (2 * i as int + 1) % 2 == 1);
        }
        i = i + 1;
    }
    assert(out@ =~= hex_of(input@) + orig.skip(needed as int));
    Some(needed)
}

/// Decodes the hex string `hex` (either case) into the start of `out` and
/// returns the number of bytes written. Fails, writing nothing, on an odd
/// length, on a byte that is not a hex digit, or when `out` is too short.
pub fn decode_hex(hex: &[u8], out: &mut [u8]) -> (r: Option<usize>)
    ensures
        final(out)@.len() == old(out)@.len(),
        is_hex(hex@) && hex@.len() / 2 <= old(out)@.len() ==> r == Some((hex@.len() / 2) as usize)
            && final(out)@ == bytes_of_hex(hex@) + old(out)@.skip(hex@.len() as int / 2),
        !(is_hex(hex@) && hex@.len() / 2 <= old(out)@.len()) ==> r is None && final(out)@ == old(
            out,
        )@,
{
    if hex.len() % 2 != 0 {
        return None;
    }
    let byte_len = hex.len() / 2;
    if byte_len > out.len() {
        return None;
    }
    let mut k: usize = 0;
    while k < hex.len()
        invariant
            0 <= k <= hex@.len(),
            forall|j: int| 0 <= j < k ==> (#[trigger] hex_value(hex@[j])).is_some(),
        decreases hex@.len() - k,
    {
        if hex_digit(hex[k]).is_none() {
            return None;
        }
        k = k + 1;
    }
    let ghost orig = out@;
    let mut i: usize = 0;
    while i < byte_len
        invariant
            0 <= i <= byte_len,
            byte_len == hex@.len() / 2,
            hex@.len() == 2 * byte_len,
            hex@.len() <= usize::MAX,
            byte_len <= out@.len(),
            is_hex(hex@),
            out@.len() == orig.len(),
            forall|j: int| 0 <= j < i ==> out@[j] == bytes_of_hex(hex@)[j],
            forall|j: int| byte_len <= j < out@.len() ==> out@[j] == orig[j],
        decreases byte_len - i,
    {
        let hc = hex[2 * i];
        let lc = hex[2 * i + 1];
        assert(hex_value(hex@[2 * i as int]).is_some());
        assert(hex_value(hex@[2 * i as int + 1]).is_some());
        let hi = hex_digit(hc).unwrap();
        let lo = hex_digit(lc).unwrap();
        let b: u8 = (hi << 4) | lo;
        assert(b == (hi * 16 + lo) as u8) by (bit_vector)
            requires
                hi < 16,
                lo < 16,
                b == (hi << 4) | lo,
        ;
        out[i] = b;
        i = i + 1;
    }
    assert(out@ =~= bytes_of_hex(hex@) + orig.skip(byte_len as int));
    Some(byte_len)
}

/// Writes `prefix` followed by `index` in decimal (a key such as
/// `approval_2`) at the start of `out` and returns its length; writes
/// nothing and returns 0 when `out` is too short.
pub fn build_indexed_key(prefix: &[u8], index: u8, out: &mut [u8]) -> (r: usize)
    ensures
        final(out)@.len() == old(out)@.len(),
        indexed_key(prefix@, index as nat).len() <= old(out)@.len() ==> r == indexed_key(
            prefix@,
            index as nat,
        ).len() && final(out)@.take(r as int) == indexed_key(prefix@, index as nat),
        indexed_key(prefix@, index as nat).len() > old(out)@.len() ==> r == 0 && final(out)@
            == old(out)@,
{
    proof {
        reveal_with_fuel(pow10, 4);
        lemma_decimal_digits_len(index as nat);
        lemma_decimal_digits_bound(index as nat, 3);
    }
    let ghost key = indexed_key(prefix@, index as nat);
    let ghost digits = decimal_digits(index as nat);
    let n = prefix.len();
    if n > out.len() {
        return 0;
    }
    let mut digit_buf: [u8; 3] = [0, 0, 0];
    let dlen = format_u32(index as u32, &mut digit_buf);
    if dlen == 0 || dlen > out.len() - n {
        return 0;
    }
    let ghost orig = out@;
    let mut i: usize = 0;
    while i < n
        invariant
            0 <= i <= n,
            n == prefix@.len(),
            n <= out@.len(),
            out@.len() == orig.len(),
            forall|j: int| 0 <= j < i ==> out@[j] == prefix@[j],
        decreases n - i,
    {
        out[i] = prefix[i];
        i = i + 1;
    }
    let mut j: usize = 0;
    while j < dlen
        invariant
            0 <= j <= dlen,
            dlen == digits.len(),
            dlen <= 3,
            digit_buf@.len() == 3,
            out@.len() <= usize::MAX,
            n == prefix@.len(),
            n + dlen <= out@.len(),
            out@.len() == orig.len(),
            digit_buf@.take(dlen as int) == digits,
            forall|x: int| 0 <= x < n ==> out@[x] == prefix@[x],
            forall|x: int| 0 <= x < j ==> out@[n + x] == digits[x],
        decreases dlen - j,
    {
        out[n + j] = digit_buf[j];
        j = j + 1;
    }
    assert(out@.take((n + dlen) as int) =~= key);
    n + dlen
}

} // verus!
