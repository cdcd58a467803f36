use vstd::prelude::*;
use vstd::string::StringSliceAdditionalSpecFns;
use crate::value::{
    digit_value, hex_literal, hex_render, is_nibbles, lemma_hex_round_trip, model_wf, parse_hex,
    Native, NativeModel,
};

verus! {

pub open spec fn is_space(c: u8) -> bool {
    c == 32 || c == 9 || c == 10 || c == 13
}

/// A byte that may stand in a symbol or in a literal other than a string:
/// neither blank nor a parenthesis.
pub open spec fn is_atom_byte(c: u8) -> bool {
    !is_space(c) && c != 40 && c != 41
}

/// The first position at or after `i` that holds no blank.
pub open spec fn skip_space(s: Seq<u8>, i: int) -> int
    decreases s.len() - i,
{
    if 0 <= i < s.len() && is_space(s[i]) {
        skip_space(s, i + 1)
    } else {
        i
    }
}

/// The end of the atom that starts at `i`.
pub open spec fn atom_end(s: Seq<u8>, i: int) -> int
    decreases s.len() - i,
{
    if 0 <= i < s.len() && is_atom_byte(s[i]) {
        atom_end(s, i + 1)
    } else {
        i
    }
}

proof fn lemma_skip_space(s: Seq<u8>, i: int)
    ensures
        skip_space(s, i) >= i,
    decreases s.len() - i,
{
    if 0 <= i < s.len() && is_space(s[i]) {
        lemma_skip_space(s, i + 1);
    }
}

proof fn lemma_atom_end(s: Seq<u8>, i: int)
    ensures
        atom_end(s, i) >= i,
    decreases s.len() - i,
{
    if 0 <= i < s.len() && is_atom_byte(s[i]) {
        lemma_atom_end(s, i + 1);
    }
}

pub open spec fn is_digit(c: u8) -> bool {
    48 <= c <= 57
}

/// One or more decimal digits.
pub open spec fn all_digits(t: Seq<u8>) -> bool {
    t.len() > 0 && forall|i: int| 0 <= i < t.len() ==> is_digit(#[trigger] t[i])
}

/// Digits, a `.`, and digits.
pub open spec fn is_decimal(t: Seq<u8>) -> bool {
    exists|k: int|
        0 < k < t.len() && #[trigger] t[k] == 46 && all_digits(t.subrange(0, k)) && all_digits(
            t.subrange(k + 1, t.len() as int),
        )
}

/// The bits that a literal `#b` followed by one or more binary digits denotes,
/// most significant first; `None` for any other text.
pub open spec fn bin_literal(t: Seq<u8>) -> Option<Seq<bool>> {
    if t.len() >= 3 && t[0] == 35u8 && t[1] == 98u8 && (forall|i: int|
        2 <= i < t.len() ==> #[trigger] t[i] == 48u8 || t[i] == 49u8) {
        Some(Seq::new((t.len() - 2) as nat, |i: int| t[i + 2] == 49u8))
    } else {
        None
    }
}

/// The value that an atom of the engine's reply denotes: a numeral, a
/// decimal, or a hexadecimal or binary bit-vector.
pub open spec fn value_of(t: Seq<u8>) -> Option<NativeModel> {
    if all_digits(t) {
        Some(NativeModel::Numeral(t))
    } else if is_decimal(t) {
        Some(NativeModel::Decimal(t))
    } else if hex_literal(t) is Some {
        Some(NativeModel::Hexadecimal(hex_literal(t).unwrap()))
    } else if bin_literal(t) is Some {
        Some(NativeModel::Binary(bin_literal(t).unwrap()))
    } else {
        None
    }
}

/// The rest of a string literal from position `i`, past its opening quote:
/// its contents, each doubled quote read as one quote, and the position of
/// its closing quote.
pub open spec fn string_from(s: Seq<u8>, i: int) -> Option<(Seq<u8>, int)>
    decreases s.len() - i,
{
    if i < 0 || i >= s.len() {
        None
    } else if s[i] == 34 {
        if i + 1 < s.len() && s[i + 1] == 34 {
            match string_from(s, i + 2) {
                Some(r) => Some((seq![34u8] + r.0, r.1)),
                None => None,
            }
        } else {
            Some((seq![], i))
        }
    } else {
        match string_from(s, i + 1) {
            Some(r) => Some((seq![s[i]] + r.0, r.1)),
            None => None,
        }
    }
}

/// A negative numeral `(- digits)` whose `(` stands at `c`: its text with a
/// leading `-`, and the position after its `)`.
pub open spec fn negative_at(s: Seq<u8>, c: int) -> Option<(Seq<u8>, int)> {
    let p = skip_space(s, c + 1);
    let q = skip_space(s, p + 1);
    let r = atom_end(s, q);
    let t = skip_space(s, r);
    if p + 1 < s.len() && s[p] == 45 && is_space(s[p + 1]) && all_digits(s.subrange(q, r)) && t
        < s.len() && s[t] == 41 {
        Some((seq![45u8] + s.subrange(q, r), t + 1))
    } else {
        None
    }
}

/// The value that starts at position `c` of a reply, and the position after it.
pub open spec fn value_at(s: Seq<u8>, c: int) -> Option<(NativeModel, int)> {
    if 0 <= c < s.len() && s[c] == 40 {
        match negative_at(s, c) {
            Some(r) => Some((NativeModel::Numeral(r.0), r.1)),
            None => None,
        }
    } else if 0 <= c < s.len() && s[c] == 34 {
        match string_from(s, c + 1) {
            Some(r) => Some((NativeModel::String(r.0), r.1 + 1)),
            None => None,
        }
    } else {
        let d = atom_end(s, c);
        if 0 <= c < d {
            match value_of(s.subrange(c, d)) {
                Some(v) => Some((v, d)),
                None => None,
            }
        } else {
            None
        }
    }
}

/// The value that a whole text denotes, as `value_at` reads it.
pub open spec fn value_text(t: Seq<u8>) -> Option<NativeModel> {
    match value_at(t, 0) {
        Some(r) => if r.1 == t.len() {
            Some(r.0)
        } else {
            None
        },
        None => None,
    }
}

/// The pairs `(symbol value)` from position `i` up to the `)` that closes
/// their list, and the position after it.
pub open spec fn pairs_from(s: Seq<u8>, i: int) -> Option<(Seq<(Seq<u8>, NativeModel)>, int)>
    decreases s.len() - i via pairs_from_decreases
{
    let j = skip_space(s, i);
    if 0 <= j < s.len() && s[j] == 41 {
        Some((seq![], j + 1))
    } else if 0 <= j < s.len() && s[j] == 40 {
        let a = skip_space(s, j + 1);
        let b = atom_end(s, a);
        let c = skip_space(s, b);
        if a < b {
            match value_at(s, c) {
                None => None,
                Some(v) => {
                    let e = skip_space(s, v.1);
                    if e < s.len() && s[e] == 41 {
                        match pairs_from(s, e + 1) {
                            None => None,
                            Some(more) => Some(
                                (seq![(s.subrange(a, b), v.0)] + more.0, more.1),
                            ),
                        }
                    } else {
                        None
                    }
                },
            }
        } else {
            None
        }
    } else {
        None
    }
}

proof fn lemma_string_from(s: Seq<u8>, i: int)
    requires
        string_from(s, i) is Some,
    ensures
        i <= string_from(s, i).unwrap().1 < s.len(),
    decreases s.len() - i,
{
    if s[i] == 34 {
        if i + 1 < s.len() && s[i + 1] == 34 {
            lemma_string_from(s, i + 2);
        }
    } else {
        lemma_string_from(s, i + 1);
    }
}

proof fn lemma_value_at(s: Seq<u8>, c: int)
    requires
        c >= 0,
        value_at(s, c) is Some,
    ensures
        c < value_at(s, c).unwrap().1 <= s.len(),
        model_wf(value_at(s, c).unwrap().0),
{
    if 0 <= c < s.len() && s[c] == 40 {
        let p = skip_space(s, c + 1);
        lemma_skip_space(s, c + 1);
        lemma_skip_space(s, p + 1);
        let q = skip_space(s, p + 1);
        lemma_atom_end(s, q);
        lemma_skip_space(s, atom_end(s, q));
    } else if 0 <= c < s.len() && s[c] == 34 {
        lemma_string_from(s, c + 1);
    } else {
        lemma_atom_end_bound(s, c);
        lemma_value_wf(s.subrange(c, atom_end(s, c)));
    }
}

proof fn lemma_atom_end_bound(s: Seq<u8>, i: int)
    requires
        0 <= i <= s.len(),
    ensures
        atom_end(s, i) <= s.len(),
    decreases s.len() - i,
{
    if 0 <= i < s.len() && is_atom_byte(s[i]) {
        lemma_atom_end_bound(s, i + 1);
    }
}

/// An atom runs to the end of a text made of atom bytes only.
proof fn lemma_atom_run(s: Seq<u8>, i: int)
    requires
        0 <= i <= s.len(),
        forall|k: int| i <= k < s.len() ==> is_atom_byte(#[trigger] s[k]),
    ensures
        atom_end(s, i) == s.len(),
    decreases s.len() - i,
{
    if i < s.len() {
        lemma_atom_run(s, i + 1);
    }
}

#[via_fn]
proof fn pairs_from_decreases(s: Seq<u8>, i: int) {
    let j = skip_space(s, i);
    lemma_skip_space(s, i);
    let a = skip_space(s, j + 1);
    lemma_skip_space(s, j + 1);
    let b = atom_end(s, a);
    lemma_atom_end(s, a);
    let c = skip_space(s, b);
    lemma_skip_space(s, b);
    if c >= 0 && value_at(s, c) is Some {
        lemma_value_at(s, c);
        lemma_skip_space(s, value_at(s, c).unwrap().1);
    }
}

/// The bindings that a reply's value section lists: one parenthesised list of
/// `(symbol value)` pairs, with blanks around and between its parts.
pub open spec fn bindings_of(s: Seq<u8>) -> Option<Seq<(Seq<u8>, NativeModel)>> {
    let j = skip_space(s, 0);
    if j < s.len() && s[j] == 40 {
        match pairs_from(s, j + 1) {
            Some(r) => if skip_space(s, r.1) == s.len() {
                Some(r.0)
            } else {
                None
            },
            None => None,
        }
    } else {
        None
    }
}

pub open spec fn bindings_model(v: Seq<(Vec<u8>, Native)>) -> Seq<(Seq<u8>, NativeModel)> {
    v.map_values(|b: (Vec<u8>, Native)| (b.0@, b.1@))
}

/// A hexadecimal bit-vector, rendered and read back as a reply's value, is
/// the same value, for every nonempty nibble sequence.
pub proof fn lemma_hex_value_round_trip(n: Seq<u8>)
    requires
        is_nibbles(n),
        n.len() > 0,
    ensures
        value_of(hex_render(n)) == Some(NativeModel::Hexadecimal(n)),
        value_text(hex_render(n)) == Some(NativeModel::Hexadecimal(n)),
{
    lemma_hex_round_trip(n);
    let t = hex_render(n);
    assert(t[0] == 35u8);
    assert(!is_digit(t[0]));
    if is_decimal(t) {
        let k = choose|k: int|
            0 < k < t.len() && #[trigger] t[k] == 46 && all_digits(t.subrange(0, k))
                && all_digits(t.subrange(k + 1, t.len() as int));
        assert(t.subrange(0, k)[0] == t[0]);
    }
    assert forall|k: int| 0 <= k < t.len() implies is_atom_byte(#[trigger] t[k]) by {
        if k >= 2 {
            assert(digit_value(t[k]) is Some);
        }
    }
    lemma_atom_run(t, 0);
    assert(t.subrange(0, t.len() as int) =~= t);
}

proof fn lemma_value_wf(t: Seq<u8>)
    requires
        value_of(t) is Some,
    ensures
        model_wf(value_of(t).unwrap()),
{
    if !all_digits(t) && !is_decimal(t) && hex_literal(t) is Some {
        let n = hex_literal(t).unwrap();
        assert forall|i: int| 0 <= i < n.len() implies n[i] < 16 by {
            assert(digit_value(t[i + 2]) is Some);
        }
    }
}

/// Every value that a list of pairs holds is well formed.
pub(crate) proof fn lemma_pairs_wf(s: Seq<u8>, i: int)
    requires
        i >= 0,
        pairs_from(s, i) is Some,
    ensures
        forall|k: int|
            0 <= k < pairs_from(s, i).unwrap().0.len() ==> model_wf(
                #[trigger] pairs_from(s, i).unwrap().0[k].1,
            ),
    decreases s.len() - i,
{
    let j = skip_space(s, i);
    lemma_skip_space(s, i);
    if 0 <= j < s.len() && s[j] == 40 {
        let a = skip_space(s, j + 1);
        lemma_skip_space(s, j + 1);
        let b = atom_end(s, a);
        lemma_atom_end(s, a);
        let c = skip_space(s, b);
        lemma_skip_space(s, b);
        lemma_value_at(s, c);
        let v = value_at(s, c).unwrap();
        let e = skip_space(s, v.1);
        lemma_skip_space(s, v.1);
        lemma_pairs_wf(s, e + 1);
        let more = pairs_from(s, e + 1).unwrap();
        let all = pairs_from(s, i).unwrap().0;
        assert(all == seq![(s.subrange(a, b), v.0)] + more.0);
        assert forall|k: int| 0 <= k < all.len() implies model_wf(#[trigger] all[k].1) by {
            if k > 0 {
                assert(all[k] == more.0[k - 1]);
            }
        }
    }
}

fn all_digits_exec(t: &Vec<u8>, from: usize) -> (r: bool)
    requires
        from <= t@.len(),
    ensures
        r == all_digits(t@.subrange(from as int, t@.len() as int)),
{
    if from >= t.len() {
        return false;
    }
    let mut i: usize = from;
    while i < t.len()
        invariant
            from <= i <= t@.len(),
            forall|k: int| from <= k < i ==> is_digit(#[trigger] t@[k]),
        decreases t@.len() - i,
    {
        if !(48 <= t[i] && t[i] <= 57) {
            assert(t@.subrange(from as int, t@.len() as int)[i - from] == t@[i as int]);
            return false;
        }
        i += 1;
    }
    let ghost u = t@.subrange(from as int, t@.len() as int);
    assert forall|k: int| 0 <= k < u.len() implies is_digit(#[trigger] u[k]) by {
        assert(u[k] == t@[k + from]);
    }
    true
}

fn is_decimal_exec(t: &Vec<u8>) -> (r: bool)
    ensures
        r == is_decimal(t@),
{
    let mut k: usize = 0;
    while k < t.len() && 48 <= t[k] && t[k] <= 57
        invariant
            k <= t@.len(),
            forall|m: int| 0 <= m < k ==> is_digit(#[trigger] t@[m]),
        decreases t@.len() - k,
    {
        k += 1;
    }
    if k == 0 || k >= t.len() || t[k] != 46 {
        proof {
            if is_decimal(t@) {
                let w = choose|w: int|
                    0 < w < t@.len() && #[trigger] t@[w] == 46 && all_digits(t@.subrange(0, w))
                        && all_digits(t@.subrange(w + 1, t@.len() as int));
                if w < k {
                    assert(is_digit(t@[w]));
                } else if w > k {
                    assert(t@.subrange(0, w)[k as int] == t@[k as int]);
                } else {
                    assert(t@.subrange(0, w)[0] == t@[0]);
                }
            }
        }
        return false;
    }
    let r = all_digits_exec(t, k + 1);
    proof {
        let pre = t@.subrange(0, k as int);
        assert forall|m: int| 0 <= m < pre.len() implies is_digit(#[trigger] pre[m]) by {
            assert(pre[m] == t@[m]);
        }
        if is_decimal(t@) && !r {
            let w = choose|w: int|
                0 < w < t@.len() && #[trigger] t@[w] == 46 && all_digits(t@.subrange(0, w))
                    && all_digits(t@.subrange(w + 1, t@.len() as int));
            if w < k {
                assert(is_digit(t@[w]));
            } else if w > k {
                assert(t@.subrange(0, w)[k as int] == t@[k as int]);
            }
        }
    }
    r
}

fn parse_bin(t: &Vec<u8>) -> (r: Option<Vec<bool>>)
    ensures
        r matches Some(b) ==> bin_literal(t@) == Some(b@),
        r is None ==> bin_literal(t@) is None,
{
    if t.len() < 3 || t[0] != 35u8 || t[1] != 98u8 {
        return None;
    }
    let mut b: Vec<bool> = Vec::new();
    let mut i: usize = 2;
    while i < t.len()
        invariant
            2 <= i <= t@.len(),
            b@.len() == i - 2,
            forall|k: int| 2 <= k < i ==> #[trigger] t@[k] == 48u8 || t@[k] == 49u8,
            forall|k: int| 0 <= k < b@.len() ==> b@[k] == (t@[k + 2] == 49u8),
        decreases t@.len() - i,
    {
        if t[i] == 48u8 {
            b.push(false);
        } else if t[i] == 49u8 {
            b.push(true);
        } else {
            return None;
        }
        i += 1;
    }
    assert(b@ =~= bin_literal(t@).unwrap());
    Some(b)
}

fn copy_range(s: &Vec<u8>, from: usize, to: usize) -> (r: Vec<u8>)
    requires
        from <= to <= s@.len(),
    ensures
        r@ == s@.subrange(from as int, to as int),
{
    let mut r: Vec<u8> = Vec::new();
    let mut i: usize = from;
    while i < to
        invariant
            from <= i <= to <= s@.len(),
            r@ == s@.subrange(from as int, i as int),
        decreases to - i,
    {
        r.push(s[i]);
        i += 1;
        assert(r@ =~= s@.subrange(from as int, i as int));
    }
    r
}

fn atom_value(t: &Vec<u8>) -> (r: Option<Native>)
    ensures
        r matches Some(v) ==> value_of(t@) == Some(v@),
        r is None ==> value_of(t@) is None,
{
    if all_digits_exec(t, 0) {
        assert(t@.subrange(0, t@.len() as int) =~= t@);
        return Some(Native::Numeral(t.clone()));
    }
    assert(t@.subrange(0, t@.len() as int) =~= t@);
    if is_decimal_exec(t) {
        return Some(Native::Decimal(t.clone()));
    }
    match parse_hex(t) {
        Some(n) => {
            return Some(Native::Hexadecimal(n));
        },
        None => {},
    }
    match parse_bin(t) {
        Some(b) => {
            return Some(Native::Binary(b));
        },
        None => {},
    }
    None
}

fn skip_space_exec(s: &Vec<u8>, i: usize) -> (r: usize)
    requires
        i <= s@.len(),
    ensures
        r == skip_space(s@, i as int),
        i <= r <= s@.len(),
{
    let mut k: usize = i;
    while k < s.len() && (s[k] == 32 || s[k] == 9 || s[k] == 10 || s[k] == 13)
        invariant
            i <= k <= s@.len(),
            skip_space(s@, k as int) == skip_space(s@, i as int),
        decreases s@.len() - k,
    {
        k += 1;
    }
    k
}

fn atom_end_exec(s: &Vec<u8>, i: usize) -> (r: usize)
    requires
        i <= s@.len(),
    ensures
        r == atom_end(s@, i as int),
        i <= r <= s@.len(),
{
    let mut k: usize = i;
    while k < s.len() && !(s[k] == 32 || s[k] == 9 || s[k] == 10 || s[k] == 13 || s[k] == 40
        || s[k] == 41)
        invariant
            i <= k <= s@.len(),
            atom_end(s@, k as int) == atom_end(s@, i as int),
        decreases s@.len() - k,
    {
        k += 1;
    }
    k
}

fn string_from_exec(s: &Vec<u8>, start: usize) -> (r: Option<(Vec<u8>, usize)>)
    requires
        start <= s@.len(),
    ensures
        r is None ==> string_from(s@, start as int) is None,
        r matches Some(p) ==> string_from(s@, start as int) == Some((p.0@, p.1 as int)) && p.1
            < s@.len(),
{
    let mut out: Vec<u8> = Vec::new();
    let mut i: usize = start;
    while i < s.len()
        invariant
            start <= i <= s@.len(),
            match string_from(s@, i as int) {
                Some(r) => string_from(s@, start as int) == Some((out@ + r.0, r.1)),
                None => string_from(s@, start as int) is None,
            },
        decreases s@.len() - i,
    {
        if s[i] == 34 {
            if i + 1 < s.len() && s[i + 1] == 34 {
                let ghost before = out@;
                out.push(34u8);
                proof {
                    if let Some(r) = string_from(s@, i + 2) {
                        assert(before + (seq![34u8] + r.0) =~= out@ + r.0);
                    }
                }
                i += 2;
            } else {
                assert(out@ + seq![] =~= out@);
                return Some((out, i));
            }
        } else {
            let ghost before = out@;
            let c = s[i];
            out.push(c);
            proof {
                if let Some(r) = string_from(s@, i + 1) {
                    assert(before + (seq![c] + r.0) =~= out@ + r.0);
                }
            }
            i += 1;
        }
    }
    None
}

fn negative_at_exec(s: &Vec<u8>, c: usize) -> (r: Option<(Vec<u8>, usize)>)
    requires
        c < s@.len(),
    ensures
        r is None ==> negative_at(s@, c as int) is None,
        r matches Some(p) ==> negative_at(s@, c as int) == Some((p.0@, p.1 as int)) && p.1
            <= s@.len(),
{
    let n = s.len();
    let p = skip_space_exec(s, c + 1);
    if !(p < n - 1 && s[p] == 45 && (s[p + 1] == 32 || s[p + 1] == 9 || s[p + 1] == 10
        || s[p + 1] == 13)) {
        return None;
    }
    let q = skip_space_exec(s, p + 1);
    let r = atom_end_exec(s, q);
    let mut digits = copy_range(s, q, r);
    let ok = all_digits_exec(&digits, 0);
    assert(digits@.subrange(0, digits@.len() as int) =~= digits@);
    let t = skip_space_exec(s, r);
    if !(ok && t < s.len() && s[t] == 41) {
        return None;
    }
    let mut text: Vec<u8> = vec![45u8];
    text.append(&mut digits);
    Some((text, t + 1))
}

fn value_at_exec(s: &Vec<u8>, c: usize) -> (r: Option<(Native, usize)>)
    requires
        c <= s@.len(),
    ensures
        r is None ==> value_at(s@, c as int) is None,
        r matches Some(p) ==> value_at(s@, c as int) == Some((p.0@, p.1 as int)) && p.1
            <= s@.len(),
{
    if c < s.len() && s[c] == 40 {
        match negative_at_exec(s, c) {
            Some(p) => Some((Native::Numeral(p.0), p.1)),
            None => None,
        }
    } else if c < s.len() && s[c] == 34 {
        match string_from_exec(s, c + 1) {
            Some(p) => Some((Native::String(p.0), p.1 + 1)),
            None => None,
        }
    } else {
        let d = atom_end_exec(s, c);
        if c < d {
            let t = copy_range(s, c, d);
            match atom_value(&t) {
                Some(v) => Some((v, d)),
                None => None,
            }
        } else {
            None
        }
    }
}

/// Reads one value as the engine writes it: a numeral, a negative numeral
/// `(- digits)`, a decimal, a hexadecimal or binary bit-vector, or a string
/// literal.
pub fn parse_value(t: &Vec<u8>) -> (r: Option<Native>)
    ensures
        r is None ==> value_text(t@) is None,
        r matches Some(v) ==> value_text(t@) == Some(v@),
{
    match value_at_exec(t, 0) {
        Some(p) => if p.1 == t.len() {
            Some(p.0)
        } else {
            None
        },
        None => None,
    }
}

fn parse_pairs(s: &Vec<u8>, i: usize) -> (r: Option<(Vec<(Vec<u8>, Native)>, usize)>)
    requires
        i <= s@.len(),
    ensures
        r is None ==> pairs_from(s@, i as int) is None,
        r matches Some(p) ==> pairs_from(s@, i as int) == Some(
            (bindings_model(p.0@), p.1 as int),
        ) && p.1 <= s@.len(),
    decreases s@.len() - i,
{
    let j = skip_space_exec(s, i);
    if j < s.len() && s[j] == 41 {
        let empty: Vec<(Vec<u8>, Native)> = Vec::new();
        assert(bindings_model(empty@) =~= seq![]);
        return Some((empty, j + 1));
    }
    if !(j < s.len() && s[j] == 40) {
        return None;
    }
    let a = skip_space_exec(s, j + 1);
    let b = atom_end_exec(s, a);
    let c = skip_space_exec(s, b);
    if !(a < b) {
        return None;
    }
    let (v, d) = match value_at_exec(s, c) {
        Some(p) => p,
        None => {
            return None;
        },
    };
    proof {
        lemma_value_at(s@, c as int);
    }
    let e = skip_space_exec(s, d);
    if !(e < s.len() && s[e] == 41) {
        return None;
    }
    match parse_pairs(s, e + 1) {
        None => None,
        Some(more) => {
            let (mut rest, end) = more;
            let ghost tail = rest@;
            rest.insert(0, (copy_range(s, a, b), v));
            assert(bindings_model(rest@) =~= seq![(s@.subrange(a as int, b as int), v@)]
                + bindings_model(tail));
            Some((rest, end))
        },
    }
}

/// Reads the value section of a reply: one parenthesised list of
/// `(symbol value)` pairs.
pub fn parse_bindings(s: &Vec<u8>) -> (r: Option<Vec<(Vec<u8>, Native)>>)
    ensures
        r is None ==> bindings_of(s@) is None,
        r matches Some(v) ==> bindings_of(s@) == Some(bindings_model(v@)),
{
    let j = skip_space_exec(s, 0);
    if !(j < s.len() && s[j] == 40) {
        return None;
    }
    match parse_pairs(s, j + 1) {
        None => None,
        Some(p) => {
            let (v, end) = p;
            if skip_space_exec(s, end) == s.len() {
                Some(v)
            } else {
                None
            }
        },
    }
}

/// How the engine's run ended.
#[derive(Debug)]
pub enum Verdict {
    /// A model exists; the text after the verdict line holds its values.
    Sat(Vec<u8>),
    /// No model exists.
    Unsat,
    /// The reply fits neither outcome.
    Malformed,
}

pub enum VerdictModel {
    Sat(Seq<u8>),
    Unsat,
    Malformed,
}

impl View for Verdict {
    type V = VerdictModel;

    open spec fn view(&self) -> VerdictModel {
        match self {
            Verdict::Sat(rest) => VerdictModel::Sat(rest@),
            Verdict::Unsat => VerdictModel::Unsat,
            Verdict::Malformed => VerdictModel::Malformed,
        }
    }
}

/// The position of the first line feed at or after `i`, or the length.
pub open spec fn newline_from(s: Seq<u8>, i: int) -> int
    decreases s.len() - i,
{
    if 0 <= i < s.len() && s[i] != 10 {
        newline_from(s, i + 1)
    } else {
        i
    }
}

/// The first line of the output, without its line ending (`\n` or `\r\n`).
pub open spec fn first_line(out: Seq<u8>) -> Seq<u8> {
    let l = out.subrange(0, newline_from(out, 0));
    if l.len() > 0 && l.last() == 13 {
        l.drop_last()
    } else {
        l
    }
}

/// The output after its first line ending; empty when there is none.
pub open spec fn after_first_line(out: Seq<u8>) -> Seq<u8> {
    let e = newline_from(out, 0);
    if e < out.len() {
        out.subrange(e + 1, out.len() as int)
    } else {
        seq![]
    }
}

/// The verdict on a run: `sat` on a successful run, `unsat` on a failed one;
/// anything else, an empty output included, is malformed.
pub open spec fn verdict_of(success: bool, out: Seq<u8>) -> VerdictModel {
    if out.len() > 0 && success && first_line(out) == "sat".spec_bytes() {
        VerdictModel::Sat(after_first_line(out))
    } else if out.len() > 0 && !success && first_line(out) == "unsat".spec_bytes() {
        VerdictModel::Unsat
    } else {
        VerdictModel::Malformed
    }
}

pub(crate) fn same_bytes(a: &Vec<u8>, b: &[u8]) -> (r: bool)
    ensures
        r == (a@ == b@),
{
    if a.len() != b.len() {
        return false;
    }
    let mut i: usize = 0;
    while i < a.len()
        invariant
            i <= a@.len() == b@.len(),
            forall|k: int| 0 <= k < i ==> a@[k] == b@[k],
        decreases a@.len() - i,
    {
        if a[i] != b[i] {
            return false;
        }
        i += 1;
    }
    assert(a@ =~= b@);
    true
}

/// Sorts a run of the engine by its exit status and the first line of its
/// output.
pub fn classify(success: bool, out: &Vec<u8>) -> (r: Verdict)
    ensures
        r@ == verdict_of(success, out@),
{
    if out.len() == 0 {
        return Verdict::Malformed;
    }
    let mut e: usize = 0;
    while e < out.len() && out[e] != 10
        invariant
            e <= out@.len(),
            newline_from(out@, e as int) == newline_from(out@, 0),
        decreases out@.len() - e,
    {
        e += 1;
    }
    let line_end: usize = if e > 0 && out[e - 1] == 13 { e - 1 } else { e };
    let line = copy_range(out, 0, line_end);
    assert(line@ =~= first_line(out@));
    if success && same_bytes(&line, "sat".as_bytes()) {
        let rest = if e < out.len() { copy_range(out, e + 1, out.len()) } else { Vec::new() };
        assert(rest@ =~= after_first_line(out@));
        Verdict::Sat(rest)
    } else if !success && same_bytes(&line, "unsat".as_bytes()) {
        Verdict::Unsat
    } else {
        Verdict::Malformed
    }
}

/// The text `(symbol literal)` of one pair.
pub open spec fn pair_text(p: (Seq<u8>, Seq<u8>)) -> Seq<u8> {
    seq![40u8] + p.0 + seq![32u8] + p.1 + seq![41u8]
}

/// The texts of the pairs, one after another.
pub open spec fn pairs_text(ps: Seq<(Seq<u8>, Seq<u8>)>) -> Seq<u8>
    decreases ps.len(),
{
    if ps.len() == 0 {
        seq![]
    } else {
        pair_text(ps[0]) + pairs_text(ps.drop_first())
    }
}

/// A symbol, or a literal written without quotes or parentheses: one or more
/// atom bytes.
pub open spec fn is_plain_atom(t: Seq<u8>) -> bool {
    t.len() > 0 && forall|k: int| 0 <= k < t.len() ==> is_atom_byte(#[trigger] t[k])
}

/// What each pair binds: its symbol and the value its literal denotes.
pub open spec fn pairs_meaning(ps: Seq<(Seq<u8>, Seq<u8>)>) -> Seq<(Seq<u8>, NativeModel)> {
    ps.map_values(|p: (Seq<u8>, Seq<u8>)| (p.0, value_of(p.1).unwrap()))
}

proof fn lemma_atom_stop(s: Seq<u8>, i: int, j: int)
    requires
        0 <= i <= j <= s.len(),
        forall|k: int| i <= k < j ==> is_atom_byte(#[trigger] s[k]),
        j == s.len() || !is_atom_byte(s[j]),
    ensures
        atom_end(s, i) == j,
    decreases j - i,
{
    if i < j {
        lemma_atom_stop(s, i + 1, j);
    }
}

proof fn lemma_pairs_text_read(
    s: Seq<u8>,
    ps: Seq<(Seq<u8>, Seq<u8>)>,
    i: int,
)
    requires
        0 <= i <= s.len(),
        s.subrange(i, s.len() as int) == pairs_text(ps) + seq![41u8],
        forall|k: int|
            0 <= k < ps.len() ==> is_plain_atom(#[trigger] ps[k].0) && is_plain_atom(ps[k].1)
                && value_of(ps[k].1) is Some,
    ensures
        pairs_from(s, i) == Some((pairs_meaning(ps), s.len() as int)),
    decreases ps.len(),
{
    let t = s.subrange(i, s.len() as int);
    if ps.len() == 0 {
        assert(t =~= seq![41u8]);
        assert(s[i] == t[0]);
        assert(pairs_meaning(ps) =~= seq![]);
    } else {
        let p = ps[0];
        let rest = ps.drop_first();
        let sym = p.0;
        let val = p.1;
        assert(is_plain_atom(sym) && is_plain_atom(val) && value_of(val) is Some);
        assert(t =~= pair_text(p) + (pairs_text(rest) + seq![41u8]));
        let a = i + 1;
        let b = a + sym.len();
        let c = b + 1;
        let d = c + val.len();
        assert(s[i] == 40u8) by {
            assert(t[0] == 40u8);
        }
        assert forall|k: int| a <= k < b implies is_atom_byte(#[trigger] s[k]) by {
            assert(s[k] == t[k - i]);
            assert(t[k - i] == sym[k - a]);
        }
        assert(s[b] == 32u8) by {
            assert(s[b] == t[b - i]);
        }
        assert forall|k: int| c <= k < d implies #[trigger] s[k] == val[k - c] by {
            assert(s[k] == t[k - i]);
            assert(t[k - i] == val[k - c]);
        }
        assert forall|k: int| c <= k < d implies is_atom_byte(#[trigger] s[k]) by {
            assert(s[k] == val[k - c]);
        }
        assert forall|k: int| a <= k < b implies #[trigger] s[k] == sym[k - a] by {
            assert(s[k] == t[k - i]);
        }
        assert(s[d] == 41u8) by {
            assert(s[d] == t[d - i]);
        }
        assert(s[a] == sym[0]) by {
            assert(s[a] == t[1]);
        }
        assert(s[c] == val[0]) by {
            assert(s[c] == t[c - i]);
        }
        assert(skip_space(s, i) == i);
        assert(skip_space(s, a) == a);
        lemma_atom_stop(s, a, b);
        assert(skip_space(s, b + 1) == b + 1);
        assert(skip_space(s, b) == c);
        lemma_atom_stop(s, c, d);
        assert(s.subrange(c, d) =~= val);
        assert(val[0] != 34u8) by {
            if is_decimal(val) && !all_digits(val) {
                let k = choose|k: int|
                    0 < k < val.len() && #[trigger] val[k] == 46 && all_digits(val.subrange(0, k))
                        && all_digits(val.subrange(k + 1, val.len() as int));
                assert(val.subrange(0, k)[0] == val[0]);
            }
        }
        assert(value_at(s, c) == Some((value_of(val).unwrap(), d)));
        assert(skip_space(s, d) == d);
        assert(s.subrange(d + 1, s.len() as int) =~= pairs_text(rest) + seq![41u8]) by {
            assert(t.subrange(d + 1 - i, t.len() as int) =~= pairs_text(rest) + seq![41u8]);
        }
        assert(forall|k: int| 0 <= k < rest.len() ==> #[trigger] rest[k] == ps[k + 1]);
        lemma_pairs_text_read(s, rest, d + 1);
        assert(s.subrange(a, b) =~= sym);
        assert(pairs_meaning(ps) =~= seq![(sym, value_of(val).unwrap())] + pairs_meaning(rest));
    }
}

/// A value section that lists pairs `(symbol literal)` reads as exactly one
/// binding per pair, in the order listed, each with the value its literal
/// denotes.
pub proof fn lemma_bindings_in_order(ps: Seq<(Seq<u8>, Seq<u8>)>)
    requires
        forall|k: int|
            0 <= k < ps.len() ==> is_plain_atom(#[trigger] ps[k].0) && is_plain_atom(ps[k].1)
                && value_of(ps[k].1) is Some,
    ensures
        bindings_of(seq![40u8] + pairs_text(ps) + seq![41u8]) == Some(pairs_meaning(ps)),
        pairs_meaning(ps).len() == ps.len(),
        forall|k: int|
            0 <= k < ps.len() ==> (#[trigger] pairs_meaning(ps)[k]).0 == ps[k].0,
{
    let s = seq![40u8] + pairs_text(ps) + seq![41u8];
    assert(s[0] == 40u8);
    assert(skip_space(s, 0) == 0);
    assert(s.subrange(1, s.len() as int) =~= pairs_text(ps) + seq![41u8]);
    lemma_pairs_text_read(s, ps, 1);
    assert(skip_space(s, s.len() as int) == s.len());
}

/// A reply that the engine may give: a verdict, and on `sat` a value section
/// that reads as a list of pairs. Any other reply is fatal.
pub open spec fn reply_readable(success: bool, out: Seq<u8>) -> bool {
    match verdict_of(success, out) {
        VerdictModel::Sat(rest) => bindings_of(rest) is Some,
        VerdictModel::Unsat => true,
        VerdictModel::Malformed => false,
    }
}

/// Whether a run's outcome can be read; a caller stops with the raw output
/// where it cannot.
pub fn is_readable(success: bool, out: &Vec<u8>) -> (r: bool)
    ensures
        r == reply_readable(success, out@),
{
    match classify(success, out) {
        Verdict::Sat(rest) => parse_bindings(&rest).is_some(),
        Verdict::Unsat => true,
        Verdict::Malformed => false,
    }
}

} // verus!
