use vstd::prelude::*;

verus! {

/// A value that the engine assigned to a variable, as it appeared in the reply.
#[derive(Debug)]
pub enum Native {
    /// Decimal digits of a non-negative integer, as written by the engine.
    Numeral(Vec<u8>),
    /// A decimal literal `digits.digits`, as written by the engine.
    Decimal(Vec<u8>),
    /// A bit-vector as nibbles (values 0 to 15), most significant first.
    Hexadecimal(Vec<u8>),
    /// A bit-vector as bits, most significant first.
    Binary(Vec<bool>),
    /// The contents of a string literal, without its quotes.
    String(Vec<u8>),
}

/// The mathematical model of a `Native`.
pub enum NativeModel {
    Numeral(Seq<u8>),
    Decimal(Seq<u8>),
    Hexadecimal(Seq<u8>),
    Binary(Seq<bool>),
    String(Seq<u8>),
}

impl View for Native {
    type V = NativeModel;

    open spec fn view(&self) -> NativeModel {
        match self {
            Native::Numeral(d) => NativeModel::Numeral(d@),
            Native::Decimal(d) => NativeModel::Decimal(d@),
            Native::Hexadecimal(n) => NativeModel::Hexadecimal(n@),
            Native::Binary(b) => NativeModel::Binary(b@),
            Native::String(s) => NativeModel::String(s@),
        }
    }
}

/// The text of a binary bit-vector: `#b`, then one digit per bit.
pub open spec fn bin_render(b: Seq<bool>) -> Seq<u8> {
    seq![35u8, 98u8] + Seq::new(b.len(), |i: int| if b[i] { 49u8 } else { 48u8 })
}

/// The text that a value is shown as.
pub open spec fn render_model(v: NativeModel) -> Seq<u8> {
    match v {
        NativeModel::Numeral(d) => d,
        NativeModel::Decimal(d) => d,
        NativeModel::Hexadecimal(n) => hex_render(n),
        NativeModel::Binary(b) => bin_render(b),
        NativeModel::String(s) => s,
    }
}

/// A value is well formed when a hexadecimal bit-vector holds one or more
/// nibbles and nothing else.
pub open spec fn model_wf(v: NativeModel) -> bool {
    match v {
        NativeModel::Hexadecimal(n) => n.len() > 0 && is_nibbles(n),
        _ => true,
    }
}

impl Native {
    pub open spec fn wf(&self) -> bool {
        model_wf(self@)
    }

    /// The text of the value: numerals, decimals and strings as they are,
    /// bit-vectors as `#x` or `#b` literals.
    pub fn render(&self) -> (r: Vec<u8>)
        requires
            self.wf(),
        ensures
            r@ == render_model(self@),
    {
        match self {
            Native::Numeral(d) => d.clone(),
            Native::Decimal(d) => d.clone(),
            Native::Hexadecimal(n) => render_hex(n),
            Native::Binary(b) => {
                let mut r: Vec<u8> = vec![35u8, 98u8];
                let mut i: usize = 0;
                while i < b.len()
                    invariant
                        i <= b@.len(),
                        r@.len() == i + 2,
                        r@.subrange(0, 2) == seq![35u8, 98u8],
                        forall|k: int| 0 <= k < i ==> r@[k + 2] == if b@[k] { 49u8 } else { 48u8 },
                    decreases b@.len() - i,
                {
                    r.push(if b[i] { 49u8 } else { 48u8 });
                    i += 1;
                }
                assert(r@ =~= bin_render(b@));
                r
            },
            Native::String(s) => s.clone(),
        }
    }

    /// A copy of the value with the same model.
    pub fn duplicate(&self) -> (r: Native)
        ensures
            r@ == self@,
    {
        match self {
            Native::Numeral(d) => Native::Numeral(d.clone()),
            Native::Decimal(d) => Native::Decimal(d.clone()),
            Native::Hexadecimal(n) => Native::Hexadecimal(n.clone()),
            Native::Binary(b) => Native::Binary(b.clone()),
            Native::String(s) => Native::String(s.clone()),
        }
    }
}

/// Every entry is a nibble, a value from 0 to 15.
pub open spec fn is_nibbles(n: Seq<u8>) -> bool {
    forall|i: int| 0 <= i < n.len() ==> n[i] < 16
}

/// The nibbles with a zero nibble in front when their count is odd.
pub open spec fn padded(n: Seq<u8>) -> Seq<u8> {
    if n.len() % 2 == 1 {
        seq![0u8] + n
    } else {
        n
    }
}

/// The bytes that the nibbles make when taken in pairs, most significant first;
/// with an odd count the first nibble stands alone in the first byte.
pub open spec fn packed(n: Seq<u8>) -> Seq<u8> {
    Seq::new(
        ((n.len() + 1) / 2) as nat,
        |j: int| (16 * padded(n)[2 * j] + padded(n)[2 * j + 1]) as u8,
    )
}

/// The ASCII lower-case hexadecimal digit of a value from 0 to 15.
pub open spec fn hex_digit(v: int) -> u8 {
    if v < 10 {
        (48 + v) as u8
    } else {
        (87 + v) as u8
    }
}

/// Two lower-case hexadecimal digits for each byte, the high half first.
pub open spec fn hex_text(b: Seq<u8>) -> Seq<u8> {
    Seq::new(
        2 * b.len(),
        |i: int|
            if i % 2 == 0 {
                hex_digit(b[i / 2] as int / 16)
            } else {
                hex_digit(b[i / 2] as int % 16)
            },
    )
}

/// The text of a hexadecimal bit-vector: `#x`, then the digits of its packed
/// bytes, less the `0` digit of the padding nibble when the count is odd.
pub open spec fn hex_render(n: Seq<u8>) -> Seq<u8> {
    let h = hex_text(packed(n));
    seq![35u8, 120u8] + if n.len() % 2 == 1 {
        h.drop_first()
    } else {
        h
    }
}

/// Relies on hex::encode: two lower-case digits for each byte, high half first.
#[verifier::external_body]
fn encode_hex(b: &Vec<u8>) -> (r: Vec<u8>)
    ensures
        r@ == hex_text(b@),
{
    hex::encode(b).into_bytes()
}

/// Packs nibbles, most significant first, into bytes; an odd count leaves the
/// first nibble alone in the first byte.
pub fn nibbles_to_bytes(n: &Vec<u8>) -> (r: Vec<u8>)
    requires
        n@.len() > 0,
        is_nibbles(n@),
    ensures
        r@ == packed(n@),
{
    let len = n.len();
    let odd = len % 2 == 1;
    let count = len / 2 + len % 2;
    let mut rv: Vec<u8> = Vec::new();
    let mut j: usize = 0;
    while j < count
        invariant
            is_nibbles(n@),
            len == n@.len(),
            odd == (len % 2 == 1),
            count == (len + 1) / 2,
            j <= count,
            rv@.len() == j,
            forall|k: int| 0 <= k < j ==> rv@[k] == packed(n@)[k],
        decreases count - j,
    {
        let byte: u8;
        if odd && j == 0 {
            byte = n[0];
            assert(padded(n@)[0] == 0 && padded(n@)[1] == n@[0]);
        } else {
            let hi_at: usize = if odd { 2 * j - 1 } else { 2 * j };
            let hi = n[hi_at];
            let lo = n[hi_at + 1];
            assert(padded(n@)[2 * j] == hi && padded(n@)[2 * j + 1] == lo);
            byte = 16 * hi + lo;
        }
        rv.push(byte);
        j += 1;
    }
    assert(rv@ =~= packed(n@));
    rv
}

/// Renders a hexadecimal bit-vector as `#x` followed by one digit per nibble.
pub fn render_hex(n: &Vec<u8>) -> (r: Vec<u8>)
    requires
        n@.len() > 0,
        is_nibbles(n@),
    ensures
        r@ == hex_render(n@),
{
    let bytes = nibbles_to_bytes(n);
    let h = encode_hex(&bytes);
    let mut r: Vec<u8> = vec![35u8, 120u8];
    let start: usize = n.len() % 2;
    proof {
        lemma_hex_text_of_packed(n@);
    }
    let mut i: usize = start;
    while i < h.len()
        invariant
            start <= i <= h@.len(),
            r@ == seq![35u8, 120u8] + h@.subrange(start as int, i as int),
        decreases h@.len() - i,
    {
        r.push(h[i]);
        i += 1;
        assert(r@ =~= seq![35u8, 120u8] + h@.subrange(start as int, i as int));
    }
    assert(h@.subrange(start as int, h@.len() as int) =~= if n@.len() % 2 == 1 {
        h@.drop_first()
    } else {
        h@
    });
    r
}

/// The value of an ASCII hexadecimal digit of either case.
pub open spec fn digit_value(c: u8) -> Option<u8> {
    if 48 <= c <= 57 {
        Some((c - 48) as u8)
    } else if 97 <= c <= 102 {
        Some((c - 87) as u8)
    } else if 65 <= c <= 70 {
        Some((c - 55) as u8)
    } else {
        None
    }
}

/// The nibbles that a literal `#x` followed by one or more hexadecimal digits
/// denotes, most significant first; `None` for any other text.
pub open spec fn hex_literal(t: Seq<u8>) -> Option<Seq<u8>> {
    if t.len() >= 3 && t[0] == 35u8 && t[1] == 120u8 && (forall|i: int|
        2 <= i < t.len() ==> digit_value(#[trigger] t[i]) is Some) {
        Some(Seq::new((t.len() - 2) as nat, |i: int| digit_value(t[i + 2]).unwrap()))
    } else {
        None
    }
}

fn hex_digit_value(c: u8) -> (r: Option<u8>)
    ensures
        r == digit_value(c),
{
    if 48 <= c && c <= 57 {
        Some(c - 48)
    } else if 97 <= c && c <= 102 {
        Some(c - 87)
    } else if 65 <= c && c <= 70 {
        Some(c - 55)
    } else {
        None
    }
}

/// Reads a hexadecimal bit-vector literal such as `#x1f` back into nibbles.
pub fn parse_hex(t: &Vec<u8>) -> (r: Option<Vec<u8>>)
    ensures
        r matches Some(n) ==> hex_literal(t@) == Some(n@),
        r is None ==> hex_literal(t@) is None,
{
    if t.len() < 3 || t[0] != 35u8 || t[1] != 120u8 {
        return None;
    }
    let mut n: Vec<u8> = Vec::new();
    let mut i: usize = 2;
    while i < t.len()
        invariant
            2 <= i <= t@.len(),
            n@.len() == i - 2,
            forall|k: int| 2 <= k < i ==> digit_value(#[trigger] t@[k]) is Some,
            forall|k: int| 0 <= k < n@.len() ==> n@[k] == digit_value(t@[k + 2]).unwrap(),
        decreases t@.len() - i,
    {
        match hex_digit_value(t[i]) {
            Some(v) => n.push(v),
            None => return None,
        }
        i += 1;
    }
    assert(n@ =~= hex_literal(t@).unwrap());
    Some(n)
}

proof fn lemma_digit_round_trip(v: u8)
    requires
        v < 16,
    ensures
        digit_value(hex_digit(v as int)) == Some(v),
{
}

proof fn lemma_byte_halves(hi: u8, lo: u8)
    requires
        hi < 16,
        lo < 16,
    ensures
        ((16 * hi + lo) as u8) as int / 16 == hi,
        ((16 * hi + lo) as u8) as int % 16 == lo,
{
    assert(16 * hi + lo < 256) by (nonlinear_arith)
        requires
            hi < 16,
            lo < 16,
    ;
    assert((16 * hi + lo) / 16 == hi && (16 * hi + lo) % 16 == lo) by (nonlinear_arith)
        requires
            hi < 16,
            lo < 16,
    ;
}

/// The digits of the packed bytes are the digits of the zero-padded nibbles.
proof fn lemma_hex_text_of_packed(n: Seq<u8>)
    requires
        is_nibbles(n),
    ensures
        hex_text(packed(n)).len() == padded(n).len(),
        forall|i: int|
            0 <= i < padded(n).len() ==> #[trigger] hex_text(packed(n))[i] == hex_digit(
                padded(n)[i] as int,
            ),
{
    let p = padded(n);
    let h = hex_text(packed(n));
    assert(forall|i: int| 0 <= i < p.len() ==> #[trigger] p[i] < 16);
    assert forall|i: int| 0 <= i < p.len() implies #[trigger] h[i] == hex_digit(p[i] as int) by {
        let j = i / 2;
        assert(p[2 * j] < 16 && p[2 * j + 1] < 16);
        lemma_byte_halves(p[2 * j], p[2 * j + 1]);
    }
}

/// Rendering a hexadecimal bit-vector and reading the text back gives the same
/// nibbles, for every nonempty nibble sequence.
pub proof fn lemma_hex_round_trip(n: Seq<u8>)
    requires
        is_nibbles(n),
        n.len() > 0,
    ensures
        hex_literal(hex_render(n)) == Some(n),
{
    lemma_hex_text_of_packed(n);
    let p = padded(n);
    let h = hex_text(packed(n));
    let off: int = if n.len() % 2 == 1 { 1 } else { 0 };
    let d = if n.len() % 2 == 1 { h.drop_first() } else { h };
    assert(d.len() == n.len());
    assert forall|i: int| 0 <= i < n.len() implies #[trigger] d[i] == hex_digit(n[i] as int) by {
        assert(p[i + off] == n[i]);
    }
    let t = hex_render(n);
    assert(t =~= seq![35u8, 120u8] + d);
    assert forall|i: int| 2 <= i < t.len() implies digit_value(#[trigger] t[i]) is Some by {
        assert(t[i] == d[i - 2]);
        lemma_digit_round_trip(n[i - 2]);
    }
    assert forall|i: int| 0 <= i < n.len() implies digit_value(t[i + 2]).unwrap() == n[i] by {
        assert(t[i + 2] == d[i]);
        lemma_digit_round_trip(n[i]);
    }
    assert(hex_literal(t).unwrap() =~= n);
}

} // verus!
