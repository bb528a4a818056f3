//! A parser for `application/x-www-form-urlencoded` bodies.
//!
//! A body is a sequence of `&`-separated pieces; each nonempty piece is a
//! `name=value` pair (everything after the first `=`; no `=` means an empty
//! value), and name and value are percent-decoded, with `+` standing for a
//! space.  A `%` that is not followed by two hexadecimal digits makes the
//! body malformed, and decoding fails.

use vstd::prelude::*;

verus! {

/// The byte value of `&`, separating pairs.
pub const AMP: u8 = 38;

/// The byte value of `=`, separating a name from its value.
pub const EQUALS: u8 = 61;

/// The byte value of `%`, opening an escape.
pub const PERCENT: u8 = 37;

/// The byte value of `+`, standing for a space.
pub const PLUS: u8 = 43;

/// The byte value of a space.
pub const SPACE: u8 = 32;

/// The pieces of `s` between occurrences of `sep`: always one more piece
/// than there are separators, in order, separators left out.
pub open spec fn split_on(s: Seq<u8>, sep: u8) -> Seq<Seq<u8>>
    decreases s.len(),
{
    if s.len() == 0 {
        seq![Seq::<u8>::empty()]
    } else if s[0] == sep {
        seq![Seq::<u8>::empty()] + split_on(s.skip(1), sep)
    } else {
        let rest = split_on(s.skip(1), sep);
        seq![seq![s[0]] + rest[0]] + rest.skip(1)
    }
}

proof fn lemma_split_on_nonempty(s: Seq<u8>, sep: u8)
    ensures
        split_on(s, sep).len() >= 1,
    decreases s.len(),
{
    if s.len() > 0 {
        lemma_split_on_nonempty(s.skip(1), sep);
    }
}

/// A string without the separator is a single piece.
proof fn lemma_split_on_no_sep(s: Seq<u8>, sep: u8)
    requires
        forall|i: int| 0 <= i < s.len() ==> s[i] != sep,
    ensures
        split_on(s, sep) =~= seq![s],
    decreases s.len(),
{
    if s.len() == 0 {
        assert(split_on(s, sep) == seq![Seq::<u8>::empty()]);
        assert(s =~= Seq::<u8>::empty());
    } else {
        assert(forall|i: int| 0 <= i < s.skip(1).len() ==> #[trigger] s.skip(1)[i] != sep);
        lemma_split_on_no_sep(s.skip(1), sep);
        let rest = split_on(s.skip(1), sep);
        assert(rest[0] == s.skip(1));
        assert(seq![s[0]] + rest[0] =~= s);
        assert(rest.skip(1) =~= Seq::<Seq<u8>>::empty());
    }
}

/// Splitting at the first separator: the piece before it, then the split of
/// what follows it.
proof fn lemma_split_on_first_sep(s: Seq<u8>, sep: u8, i: int)
    requires
        0 <= i < s.len(),
        s[i] == sep,
        forall|j: int| 0 <= j < i ==> s[j] != sep,
    ensures
        split_on(s, sep) =~= seq![s.take(i)] + split_on(s.skip(i + 1), sep),
    decreases i,
{
    if i == 0 {
        assert(s.take(0) =~= Seq::<u8>::empty());
    } else {
        assert(s.skip(1)[i - 1] == sep);
        assert(forall|j: int| 0 <= j < i - 1 ==> #[trigger] s.skip(1)[j] != sep);
        lemma_split_on_first_sep(s.skip(1), sep, i - 1);
        let rest = split_on(s.skip(1), sep);
        assert(rest =~= seq![s.skip(1).take(i - 1)] + split_on(s.skip(1).skip(i), sep));
        assert(s.skip(1).skip(i) =~= s.skip(i + 1));
        assert(seq![s[0]] + s.skip(1).take(i - 1) =~= s.take(i));
        lemma_split_on_nonempty(s.skip(i + 1), sep);
        assert(rest.skip(1) =~= split_on(s.skip(i + 1), sep));
    }
}

/// Split a byte string on a separator.  The result holds the same pieces, in
/// the same order, as the specification-level split.
pub fn split_bytes(s: &[u8], sep: u8) -> (r: Vec<Vec<u8>>)
    ensures
        r@.len() == split_on(s@, sep).len(),
        forall|k: int| 0 <= k < r@.len() ==> r@[k]@ == split_on(s@, sep)[k],
{
    let ghost pieces = split_on(s@, sep);
    let mut r: Vec<Vec<u8>> = Vec::new();
    let mut start: usize = 0;
    let mut i: usize = 0;
    proof {
        lemma_split_on_nonempty(s@, sep);
        assert(s@.skip(0) =~= s@);
        assert(r@.map_values(|p: Vec<u8>| p@) =~= Seq::<Seq<u8>>::empty());
    }
    while i < s.len()
        invariant
            0 <= start <= i <= s@.len(),
            pieces == split_on(s@, sep),
            pieces.len() >= r@.len() + 1,
            pieces =~= r@.map_values(|p: Vec<u8>| p@) + split_on(s@.skip(start as int), sep),
            forall|k: int| 0 <= k < r@.len() ==> r@[k]@ == pieces[k],
            forall|j: int| start <= j < i ==> s@[j] != sep,
        decreases s@.len() - i,
    {
        if s[i] == sep {
            let piece = vstd::slice::slice_to_vec(vstd::slice::slice_subrange(s, start, i));
            proof {
                assert(s@.skip(start as int)[i - start] == sep);
                assert(forall|j: int|
                    0 <= j < i - start ==> #[trigger] s@.skip(start as int)[j] != sep);
                lemma_split_on_first_sep(s@.skip(start as int), sep, i - start);
                assert(s@.skip(start as int).take(i - start) =~= s@.subrange(
                    start as int,
                    i as int,
                ));
                assert(s@.skip(start as int).skip(i - start + 1) =~= s@.skip(i + 1));
                lemma_split_on_nonempty(s@.skip(i + 1), sep);
                assert((r@.push(piece)).map_values(|p: Vec<u8>| p@) =~= r@.map_values(
                    |p: Vec<u8>| p@,
                ).push(piece@));
            }
            r.push(piece);
            start = i + 1;
        }
        i += 1;
    }
    let last = vstd::slice::slice_to_vec(vstd::slice::slice_subrange(s, start, s.len()));
    proof {
        assert(s@.subrange(start as int, s@.len() as int) =~= s@.skip(start as int));
        assert(forall|j: int|
            0 <= j < s@.skip(start as int).len() ==> #[trigger] s@.skip(start as int)[j] != sep);
        lemma_split_on_no_sep(s@.skip(start as int), sep);
        assert((r@.push(last)).map_values(|p: Vec<u8>| p@) =~= r@.map_values(
            |p: Vec<u8>| p@,
        ).push(last@));
    }
    r.push(last);
    proof {
        assert(forall|k: int|
            0 <= k < r@.len() ==> #[trigger] r@[k]@ == r@.map_values(|p: Vec<u8>| p@)[k]);
    }
    r
}

/// The byte value of `A`, the least upper-case hexadecimal letter.
pub const UPPER_A: u8 = 65;

/// The byte value of `F`, the greatest upper-case hexadecimal letter.
pub const UPPER_F: u8 = 70;

/// The byte value of `a`, the least lower-case hexadecimal letter.
pub const LOWER_A: u8 = 97;

/// The byte value of `f`, the greatest lower-case hexadecimal letter.
pub const LOWER_F: u8 = 102;

/// `b` is a hexadecimal digit, in either case.
pub open spec fn is_hex(b: u8) -> bool {
    crate::text::is_digit(b) || (UPPER_A <= b <= UPPER_F) || (LOWER_A <= b <= LOWER_F)
}

/// The numeric value of a hexadecimal digit byte.
pub open spec fn hex_val(b: u8) -> nat {
    if crate::text::is_digit(b) {
        crate::text::digit_val(b)
    } else if UPPER_A <= b <= UPPER_F {
        (b - UPPER_A + 10) as nat
    } else {
        (b - LOWER_A + 10) as nat
    }
}

/// The percent-decoding of `s`: `+` becomes a space, `%` followed by two
/// hexadecimal digits becomes the byte they spell, any other byte stands for
/// itself.  A `%` not followed by two hexadecimal digits is malformed.
pub open spec fn pct_decode(s: Seq<u8>) -> Option<Seq<u8>>
    decreases s.len(),
{
    if s.len() == 0 {
        Some(Seq::<u8>::empty())
    } else if s[0] == PLUS {
        match pct_decode(s.skip(1)) {
            Some(t) => Some(seq![SPACE] + t),
            None => None,
        }
    } else if s[0] == PERCENT {
        if s.len() >= 3 && is_hex(s[1]) && is_hex(s[2]) {
            match pct_decode(s.skip(3)) {
                Some(t) => Some(seq![(hex_val(s[1]) * 16 + hex_val(s[2])) as u8] + t),
                None => None,
            }
        } else {
            None
        }
    } else {
        match pct_decode(s.skip(1)) {
            Some(t) => Some(seq![s[0]] + t),
            None => None,
        }
    }
}

/// The value of a hexadecimal digit byte, or `None` when it is none.
fn hex_digit_value(b: u8) -> (r: Option<u8>)
    ensures
        match r {
            Some(v) => is_hex(b) && v as nat == hex_val(b) && v < 16,
            None => !is_hex(b),
        },
{
    if crate::text::ZERO <= b && b <= crate::text::NINE {
        Some(b - crate::text::ZERO)
    } else if UPPER_A <= b && b <= UPPER_F {
        Some(b - UPPER_A + 10)
    } else if LOWER_A <= b && b <= LOWER_F {
        Some(b - LOWER_A + 10)
    } else {
        None
    }
}

/// Percent-decode a byte string; `None` when it is malformed.
pub fn pct_decode_bytes(s: &[u8]) -> (r: Option<Vec<u8>>)
    ensures
        match r {
            Some(v) => pct_decode(s@) == Some(v@),
            None => pct_decode(s@) is None,
        },
{
    let mut out: Vec<u8> = Vec::new();
    let mut i: usize = 0;
    proof {
        assert(s@.skip(0) =~= s@);
    }
    while i < s.len()
        invariant
            0 <= i <= s@.len(),
            pct_decode(s@) == (match pct_decode(s@.skip(i as int)) {
                Some(t) => Some(out@ + t),
                None => None::<Seq<u8>>,
            }),
        decreases s@.len() - i,
    {
        let ghost rem = s@.skip(i as int);
        proof {
            assert(rem[0] == s@[i as int]);
        }
        let b = s[i];
        if b == PLUS {
            proof {
                assert(rem.skip(1) =~= s@.skip(i + 1));
                if let Some(t) = pct_decode(s@.skip(i + 1)) {
                    assert(out@.push(SPACE) + t =~= out@ + (seq![SPACE] + t));
                }
            }
            out.push(SPACE);
            i += 1;
        } else if b == PERCENT {
            if s.len() - i < 3 {
                proof {
                    assert(rem.len() < 3);
                }
                return None;
            }
            proof {
                assert(rem[1] == s@[i + 1]);
                assert(rem[2] == s@[i + 2]);
            }
            let h1 = match hex_digit_value(s[i + 1]) {
                Some(v) => v,
                None => {
                    return None;
                },
            };
            let h2 = match hex_digit_value(s[i + 2]) {
                Some(v) => v,
                None => {
                    return None;
                },
            };
            let byte = h1 * 16 + h2;
            proof {
                assert(rem.skip(3) =~= s@.skip(i + 3));
                if let Some(t) = pct_decode(s@.skip(i + 3)) {
                    assert(out@.push(byte) + t =~= out@ + (seq![byte] + t));
                }
            }
            out.push(byte);
            i += 3;
        } else {
            proof {
                assert(rem.skip(1) =~= s@.skip(i + 1));
                if let Some(t) = pct_decode(s@.skip(i + 1)) {
                    assert(out@.push(b) + t =~= out@ + (seq![b] + t));
                }
            }
            out.push(b);
            i += 1;
        }
    }
    proof {
        assert(s@.skip(i as int) =~= Seq::<u8>::empty());
        assert(out@ + Seq::<u8>::empty() =~= out@);
    }
    Some(out)
}

/// A piece cut at its first `=`: the name before it and the value after it.
/// A piece without `=` is all name, with an empty value.
pub open spec fn split_pair(p: Seq<u8>) -> (Seq<u8>, Seq<u8>)
    decreases p.len(),
{
    if p.len() == 0 {
        (Seq::<u8>::empty(), Seq::<u8>::empty())
    } else if p[0] == EQUALS {
        (Seq::<u8>::empty(), p.skip(1))
    } else {
        let r = split_pair(p.skip(1));
        (seq![p[0]] + r.0, r.1)
    }
}

proof fn lemma_split_pair_no_eq(p: Seq<u8>)
    requires
        forall|i: int| 0 <= i < p.len() ==> p[i] != EQUALS,
    ensures
        split_pair(p).0 =~= p,
        split_pair(p).1 =~= Seq::<u8>::empty(),
    decreases p.len(),
{
    if p.len() > 0 {
        assert(forall|i: int| 0 <= i < p.skip(1).len() ==> #[trigger] p.skip(1)[i] != EQUALS);
        lemma_split_pair_no_eq(p.skip(1));
        assert(seq![p[0]] + p.skip(1) =~= p);
    }
}

proof fn lemma_split_pair_first_eq(p: Seq<u8>, i: int)
    requires
        0 <= i < p.len(),
        p[i] == EQUALS,
        forall|j: int| 0 <= j < i ==> p[j] != EQUALS,
    ensures
        split_pair(p).0 =~= p.take(i),
        split_pair(p).1 =~= p.skip(i + 1),
    decreases i,
{
    if i == 0 {
        assert(p.take(0) =~= Seq::<u8>::empty());
    } else {
        assert(p.skip(1)[i - 1] == EQUALS);
        assert(forall|j: int| 0 <= j < i - 1 ==> #[trigger] p.skip(1)[j] != EQUALS);
        lemma_split_pair_first_eq(p.skip(1), i - 1);
        assert(seq![p[0]] + p.skip(1).take(i - 1) =~= p.take(i));
        assert(p.skip(1).skip(i) =~= p.skip(i + 1));
    }
}

/// Cut a piece at its first `=` into raw name and raw value.
fn split_pair_bytes(p: &[u8]) -> (r: (Vec<u8>, Vec<u8>))
    ensures
        r.0@ == split_pair(p@).0,
        r.1@ == split_pair(p@).1,
{
    let mut j: usize = 0;
    while j < p.len()
        invariant
            0 <= j <= p@.len(),
            forall|k: int| 0 <= k < j ==> p@[k] != EQUALS,
        decreases p@.len() - j,
    {
        if p[j] == EQUALS {
            proof {
                lemma_split_pair_first_eq(p@, j as int);
                assert(p@.subrange(0, j as int) =~= p@.take(j as int));
                assert(p@.subrange(j + 1, p@.len() as int) =~= p@.skip(j + 1));
            }
            let name = vstd::slice::slice_to_vec(vstd::slice::slice_subrange(p, 0, j));
            let value = vstd::slice::slice_to_vec(
                vstd::slice::slice_subrange(p, j + 1, p.len()),
            );
            return (name, value);
        }
        j += 1;
    }
    proof {
        lemma_split_pair_no_eq(p@);
    }
    let name = vstd::slice::slice_to_vec(p);
    (name, Vec::new())
}

/// The decoded `(name, value)` pairs of the nonempty pieces, in order;
/// `None` as soon as one side of one piece is malformed.
pub open spec fn decode_pairs(ps: Seq<Seq<u8>>) -> Option<Seq<(Seq<u8>, Seq<u8>)>>
    decreases ps.len(),
{
    if ps.len() == 0 {
        Some(Seq::<(Seq<u8>, Seq<u8>)>::empty())
    } else if ps[0].len() == 0 {
        decode_pairs(ps.skip(1))
    } else {
        let nv = split_pair(ps[0]);
        match pct_decode(nv.0) {
            Some(n) => match pct_decode(nv.1) {
                Some(v) => match decode_pairs(ps.skip(1)) {
                    Some(t) => Some(seq![(n, v)] + t),
                    None => None,
                },
                None => None,
            },
            None => None,
        }
    }
}

/// What a form body means: its decoded pairs, or nothing when it is
/// malformed.
pub open spec fn parse_form_spec(body: Seq<u8>) -> Option<Seq<(Seq<u8>, Seq<u8>)>> {
    decode_pairs(split_on(body, AMP))
}

/// Decoded form data: the `(name, value)` pairs of the body, in the order
/// they were submitted, duplicates kept.
pub struct Form {
    pub pairs: Vec<(Vec<u8>, Vec<u8>)>,
}

impl View for Form {
    type V = Seq<(Seq<u8>, Seq<u8>)>;

    open spec fn view(&self) -> Seq<(Seq<u8>, Seq<u8>)> {
        self.pairs@.map_values(|p: (Vec<u8>, Vec<u8>)| (p.0@, p.1@))
    }
}

/// The values filed under `name`, in submission order.
pub open spec fn values_of(pairs: Seq<(Seq<u8>, Seq<u8>)>, name: Seq<u8>) -> Seq<Seq<u8>>
    decreases pairs.len(),
{
    if pairs.len() == 0 {
        Seq::<Seq<u8>>::empty()
    } else {
        let rest = values_of(pairs.skip(1), name);
        if pairs[0].0 == name {
            seq![pairs[0].1] + rest
        } else {
            rest
        }
    }
}

/// Decode a URL-encoded form body; `None` when it is malformed.
pub fn parse_form(body: &[u8]) -> (r: Option<Form>)
    ensures
        match r {
            Some(f) => parse_form_spec(body@) == Some(f@),
            None => parse_form_spec(body@) is None,
        },
{
    let pieces = split_bytes(body, AMP);
    let ghost sp = split_on(body@, AMP);
    let mut pairs: Vec<(Vec<u8>, Vec<u8>)> = Vec::new();
    let mut i: usize = 0;
    proof {
        assert(sp.skip(0) =~= sp);
        assert(pairs@.map_values(|p: (Vec<u8>, Vec<u8>)| (p.0@, p.1@)) =~= Seq::<
            (Seq<u8>, Seq<u8>),
        >::empty());
    }
    while i < pieces.len()
        invariant
            0 <= i <= pieces@.len(),
            sp == split_on(body@, AMP),
            pieces@.len() == sp.len(),
            forall|k: int| 0 <= k < sp.len() ==> pieces@[k]@ == sp[k],
            decode_pairs(sp) == (match decode_pairs(sp.skip(i as int)) {
                Some(t) => Some(pairs@.map_values(|p: (Vec<u8>, Vec<u8>)| (p.0@, p.1@)) + t),
                None => None::<Seq<(Seq<u8>, Seq<u8>)>>,
            }),
        decreases pieces@.len() - i,
    {
        let ghost rem = sp.skip(i as int);
        proof {
            assert(rem[0] == sp[i as int]);
            assert(rem.skip(1) =~= sp.skip(i + 1));
        }
        let piece = &pieces[i];
        proof {
            assert(piece@ == sp[i as int]);
        }
        if piece.len() > 0 {
            let (raw_name, raw_value) = split_pair_bytes(piece.as_slice());
            let name = match pct_decode_bytes(raw_name.as_slice()) {
                Some(n) => n,
                None => {
                    proof {
                        assert(raw_name@ == split_pair(rem[0]).0);
                        assert(decode_pairs(rem) is None);
                    }
                    return None;
                },
            };
            let value = match pct_decode_bytes(raw_value.as_slice()) {
                Some(v) => v,
                None => {
                    proof {
                        assert(raw_value@ == split_pair(rem[0]).1);
                        assert(decode_pairs(rem) is None);
                    }
                    return None;
                },
            };
            proof {
                let ghost pv = pairs@.map_values(|p: (Vec<u8>, Vec<u8>)| (p.0@, p.1@));
                if let Some(t) = decode_pairs(sp.skip(i + 1)) {
                    assert((pairs@.push((name, value))).map_values(
                        |p: (Vec<u8>, Vec<u8>)| (p.0@, p.1@),
                    ) =~= pv.push((name@, value@)));
                    assert(pv.push((name@, value@)) + t =~= pv + (seq![(name@, value@)] + t));
                }
            }
            pairs.push((name, value));
        }
        i += 1;
    }
    proof {
        assert(sp.skip(sp.len() as int) =~= Seq::<Seq<u8>>::empty());
        let ghost pv = pairs@.map_values(|p: (Vec<u8>, Vec<u8>)| (p.0@, p.1@));
        assert(pv + Seq::<(Seq<u8>, Seq<u8>)>::empty() =~= pv);
    }
    Some(Form { pairs })
}

impl Form {
    /// The values filed under `name`, or `None` when the form has no field
    /// of that name.
    pub fn get(&self, name: &[u8]) -> (r: Option<Vec<Vec<u8>>>)
        ensures
            match r {
                Some(vs) => {
                    &&& vs@.len() == values_of(self@, name@).len()
                    &&& vs@.len() > 0
                    &&& forall|k: int|
                        0 <= k < vs@.len() ==> vs@[k]@ == values_of(self@, name@)[k]
                },
                None => values_of(self@, name@).len() == 0,
            },
    {
        let ghost all = self@;
        let mut out: Vec<Vec<u8>> = Vec::new();
        let mut i: usize = 0;
        proof {
            assert(all.skip(0) =~= all);
            assert(out@.map_values(|v: Vec<u8>| v@) =~= Seq::<Seq<u8>>::empty());
            assert(Seq::<Seq<u8>>::empty() + values_of(all, name@) =~= values_of(all, name@));
        }
        while i < self.pairs.len()
            invariant
                0 <= i <= self.pairs@.len(),
                all == self@,
                all.len() == self.pairs@.len(),
                forall|k: int|
                    0 <= k < all.len() ==> all[k] == ((#[trigger] self.pairs@[k]).0@,
                    self.pairs@[k].1@),
                values_of(all, name@) =~= out@.map_values(|v: Vec<u8>| v@) + values_of(
                    all.skip(i as int),
                    name@,
                ),
            decreases self.pairs@.len() - i,
        {
            let ghost rem = all.skip(i as int);
            proof {
                assert(rem[0] == all[i as int]);
                assert(rem.skip(1) =~= all.skip(i + 1));
            }
            let pair = &self.pairs[i];
            if crate::text::bytes_eq(pair.0.as_slice(), name) {
                let value = vstd::slice::slice_to_vec(pair.1.as_slice());
                proof {
                    let ghost ov = out@.map_values(|v: Vec<u8>| v@);
                    assert((out@.push(value)).map_values(|v: Vec<u8>| v@) =~= ov.push(value@));
                    assert(ov.push(value@) + values_of(all.skip(i + 1), name@) =~= ov + (seq![
                        value@,
                    ] + values_of(all.skip(i + 1), name@)));
                }
                out.push(value);
            }
            i += 1;
        }
        proof {
            assert(all.skip(all.len() as int) =~= Seq::<(Seq<u8>, Seq<u8>)>::empty());
            let ghost ov = out@.map_values(|v: Vec<u8>| v@);
            assert(ov + Seq::<Seq<u8>>::empty() =~= ov);
            assert(forall|k: int|
                0 <= k < out@.len() ==> #[trigger] out@[k]@ == out@.map_values(
                    |v: Vec<u8>| v@,
                )[k]);
        }
        if out.len() == 0 {
            None
        } else {
            Some(out)
        }
    }
}

} // verus!
