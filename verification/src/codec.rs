//! The serialized form of a tile query: the JSON object `{"x":N,"y":M}` with
//! decimal coordinates, parsed and produced byte by byte. The parser accepts
//! exactly the canonical form the serializer produces: no spaces, no leading
//! zeros, coordinates within `u32`.

use vstd::prelude::*;

verus! {

/// A tile on the `F x F` grid, by its integer grid coordinates.
#[derive(PartialEq, Eq, Structural, Clone, Copy, Debug)]
pub struct Query {
    pub x: u32,
    pub y: u32,
}

pub open spec fn spec_is_digit(b: u8) -> bool {
    48 <= b <= 57
}

/// The decimal digits of `n`, most significant first.
pub open spec fn spec_dec_digits(n: nat) -> Seq<u8>
    decreases n,
{
    if n < 10 {
        seq![(48 + n) as u8]
    } else {
        spec_dec_digits(n / 10).push((48 + n % 10) as u8)
    }
}

/// The value of a run of decimal digits, most significant first.
pub open spec fn spec_digits_val(s: Seq<u8>) -> int
    decreases s.len(),
{
    if s.len() == 0 {
        0
    } else {
        spec_digits_val(s.drop_last()) * 10 + (s.last() - 48)
    }
}

/// A canonical decimal literal: nonempty, digits only, and no leading zero
/// unless the literal is exactly "0".
pub open spec fn spec_canonical_digits(s: Seq<u8>) -> bool {
    &&& s.len() >= 1
    &&& forall|i: int| 0 <= i < s.len() ==> spec_is_digit(#[trigger] s[i])
    &&& (s.len() > 1 ==> s[0] != 48)
}

/// The length of the digit run of `s` starting at `i`.
pub open spec fn spec_digit_run(s: Seq<u8>, i: int) -> int
    decreases s.len() - i,
{
    if 0 <= i < s.len() && spec_is_digit(s[i]) {
        1 + spec_digit_run(s, i + 1)
    } else {
        0
    }
}

pub open spec fn spec_obj_head() -> Seq<u8> {
    seq![123u8, 34u8, 120u8, 34u8, 58u8]
}

pub open spec fn spec_obj_mid() -> Seq<u8> {
    seq![44u8, 34u8, 121u8, 34u8, 58u8]
}

/// The canonical serialization of a query: `{"x":N,"y":M}`.
pub open spec fn spec_serialize_query(q: Query) -> Seq<u8> {
    spec_obj_head() + spec_dec_digits(q.x as nat) + spec_obj_mid() + spec_dec_digits(q.y as nat)
        + seq![125u8]
}

/// Parses the canonical form `{"x":N,"y":M}`; anything else is `None`.
pub open spec fn spec_parse_query(s: Seq<u8>) -> Option<Query> {
    if s.len() < 5 || s.subrange(0, 5) != spec_obj_head() {
        None
    } else {
        let dx = spec_digit_run(s, 5);
        let xs = s.subrange(5, 5 + dx);
        if dx == 0 || !spec_canonical_digits(xs) || spec_digits_val(xs) > u32::MAX {
            None
        } else if s.len() < 5 + dx + 5 || s.subrange(5 + dx, 5 + dx + 5) != spec_obj_mid() {
            None
        } else {
            let j = 5 + dx + 5;
            let dy = spec_digit_run(s, j);
            let ys = s.subrange(j, j + dy);
            if dy == 0 || !spec_canonical_digits(ys) || spec_digits_val(ys) > u32::MAX {
                None
            } else if s.len() != j + dy + 1 || s[j + dy] != 125 {
                None
            } else {
                Some(
                    Query {
                        x: spec_digits_val(xs) as u32,
                        y: spec_digits_val(ys) as u32,
                    },
                )
            }
        }
    }
}

/// Appends the decimal digits of `n`, most significant first.
fn push_digits(n: u32, out: &mut Vec<u8>)
    ensures
        final(out)@ == old(out)@ + spec_dec_digits(n as nat),
    decreases n,
{
    if n < 10 {
        out.push(48 + n as u8);
        proof {
            assert(final(out)@ =~= old(out)@ + spec_dec_digits(n as nat));
        }
    } else {
        let ghost pre = out@;
        push_digits(n / 10, out);
        out.push(48 + (n % 10) as u8);
        proof {
            assert(out@ =~= pre + spec_dec_digits(n as nat));
        }
    }
}

/// The canonical serialization of a query: `{"x":N,"y":M}`, as bytes.
pub fn serialize_query(q: &Query) -> (r: Vec<u8>)
    ensures
        r@ == spec_serialize_query(*q),
{
    let mut out: Vec<u8> = Vec::new();
    out.push(123);
    out.push(34);
    out.push(120);
    out.push(34);
    out.push(58);
    proof {
        assert(out@ =~= spec_obj_head());
    }
    push_digits(q.x, &mut out);
    out.push(44);
    out.push(34);
    out.push(121);
    out.push(34);
    out.push(58);
    push_digits(q.y, &mut out);
    out.push(125);
    proof {
        assert(out@ =~= spec_serialize_query(*q));
    }
    out
}

/// Scans the digit run starting at `i`; hands back the run's end and its
/// value, or `None` for the value once it no longer fits in `u32`.
fn scan_digits(s: &Vec<u8>, i: usize) -> (r: (usize, Option<u32>))
    requires
        i <= s@.len(),
    ensures
        i + spec_digit_run(s@, i as int) == r.0,
        i <= r.0 <= s@.len(),
        r.1 is Some ==> r.1.unwrap() == spec_digits_val(s@.subrange(i as int, r.0 as int))
            && spec_digits_val(s@.subrange(i as int, r.0 as int)) <= u32::MAX,
        r.1 is None ==> spec_digits_val(s@.subrange(i as int, r.0 as int)) > u32::MAX,
{
    let mut j = i;
    let mut val: u32 = 0;
    let mut fits = true;
    while j < s.len() && s[j] >= 48 && s[j] <= 57
        invariant
            i <= j <= s@.len(),
            spec_digit_run(s@, i as int) == (j - i) + spec_digit_run(s@, j as int),
            forall|k: int| i <= k < j ==> spec_is_digit(#[trigger] s@[k]),
            fits ==> val == spec_digits_val(s@.subrange(i as int, j as int))
                && spec_digits_val(s@.subrange(i as int, j as int)) <= u32::MAX,
            !fits ==> spec_digits_val(s@.subrange(i as int, j as int)) > u32::MAX,
        decreases s@.len() - j,
    {
        let d: u32 = (s[j] - 48) as u32;
        let ghost prefix = s@.subrange(i as int, j as int);
        let ghost extended = s@.subrange(i as int, j as int + 1);
        proof {
            assert(extended.drop_last() =~= prefix);
            assert(extended.last() == s@[j as int]);
            assert(spec_digits_val(extended) == spec_digits_val(prefix) * 10 + d);
            lemma_digits_val_nonneg(prefix);
        }
        if fits {
            if val <= (u32::MAX - d) / 10 {
                val = val * 10 + d;
            } else {
                proof {
                    assert(spec_digits_val(extended) > u32::MAX) by (nonlinear_arith)
                        requires
                            spec_digits_val(extended) == spec_digits_val(prefix) * 10 + d,
                            spec_digits_val(prefix) == val,
                            val as int > ((u32::MAX - d) as int) / 10,
                            0 <= d <= 9,
                            0 <= val,
                    ;
                }
                fits = false;
            }
        } else {
            proof {
                assert(spec_digits_val(extended) > u32::MAX) by (nonlinear_arith)
                    requires
                        spec_digits_val(extended) == spec_digits_val(prefix) * 10 + d,
                        spec_digits_val(prefix) > u32::MAX,
                        0 <= d,
                ;
            }
        }
        j = j + 1;
    }
    (j, if fits {
        Some(val)
    } else {
        None
    })
}

/// Digit-run values are never negative.
proof fn lemma_digits_val_nonneg(s: Seq<u8>)
    requires
        forall|i: int| 0 <= i < s.len() ==> spec_is_digit(#[trigger] s[i]),
    ensures
        spec_digits_val(s) >= 0,
    decreases s.len(),
{
    if s.len() > 0 {
        assert(s.drop_last() =~= s.subrange(0, s.len() - 1));
        lemma_digits_val_nonneg(s.drop_last());
        assert(spec_digits_val(s.drop_last()) * 10 >= 0) by (nonlinear_arith)
            requires spec_digits_val(s.drop_last()) >= 0;
    }
}

/// Parses the canonical query serialization `{"x":N,"y":M}`; any other byte
/// string gives `None` -- including JSON forms with whitespace, leading
/// zeros or reordered keys, which a general JSON reader would accept.
pub fn parse_query(s: &Vec<u8>) -> (r: Option<Query>)
    ensures
        r == spec_parse_query(s@),
{
    if s.len() < 5 || s[0] != 123 || s[1] != 34 || s[2] != 120 || s[3] != 34 || s[4] != 58 {
        proof {
            if s@.len() >= 5 && s@.subrange(0, 5) =~= spec_obj_head() {
                assert(s@[0] == 123 && s@[1] == 34 && s@[2] == 120 && s@[3] == 34 && s@[4] == 58);
            }
        }
        return None;
    }
    proof {
        assert(s@.subrange(0, 5) =~= spec_obj_head());
    }
    let (xe, xval) = scan_digits(s, 5);
    if xe == 5 {
        return None;
    }
    let xv = match xval {
        Some(v) => v,
        None => {
            return None;
        },
    };
    proof {
        lemma_run_is_canonical_shape(s@, 5, xe as int);
    }
    if s[5] == 48 && xe > 6 {
        // a leading zero is not canonical
        return None;
    }
    if s.len() - xe < 5 || s[xe] != 44 || s[xe + 1] != 34 || s[xe + 2] != 121 || s[xe + 3] != 34
        || s[xe + 4] != 58 {
        proof {
            if s@.len() >= xe + 5 && s@.subrange(xe as int, xe as int + 5) =~= spec_obj_mid() {
                assert(s@[xe as int] == 44 && s@[xe as int + 1] == 34 && s@[xe as int + 2] == 121
                    && s@[xe as int + 3] == 34 && s@[xe as int + 4] == 58);
            }
        }
        return None;
    }
    proof {
        assert(s@.subrange(xe as int, xe as int + 5) =~= spec_obj_mid());
    }
    let ys = xe + 5;
    let (ye, yval) = scan_digits(s, ys);
    if ye == ys {
        return None;
    }
    let yv = match yval {
        Some(v) => v,
        None => {
            return None;
        },
    };
    proof {
        lemma_run_is_canonical_shape(s@, ys as int, ye as int);
    }
    if s[ys] == 48 && ye > ys + 1 {
        return None;
    }
    if s.len() - ye != 1 || s[ye] != 125 {
        return None;
    }
    Some(Query { x: xv, y: yv })
}

/// The decimal digits of any number form a canonical literal.
proof fn lemma_dec_digits_canonical(n: nat)
    ensures
        spec_canonical_digits(spec_dec_digits(n)),
        n >= 1 ==> spec_dec_digits(n)[0] != 48,
    decreases n,
{
    if n < 10 {
    } else {
        lemma_dec_digits_canonical(n / 10);
        let head = spec_dec_digits(n / 10);
        let s = spec_dec_digits(n);
        assert(s == head.push((48 + n % 10) as u8));
        assert(s[0] == head[0]);
        assert(n / 10 >= 1) by (nonlinear_arith)
            requires n >= 10;
        assert(n % 10 < 10) by {
            vstd::arithmetic::div_mod::lemma_mod_bound(n as int, 10);
        }
        assert forall|i: int| 0 <= i < s.len() implies spec_is_digit(#[trigger] s[i]) by {
            if i < head.len() {
                assert(s[i] == head[i]);
            }
        }
    }
}

/// Reading back the decimal digits of `n` yields `n`.
proof fn lemma_dec_digits_val(n: nat)
    ensures
        spec_digits_val(spec_dec_digits(n)) == n,
    decreases n,
{
    if n < 10 {
        assert(spec_digits_val(Seq::<u8>::empty()) == 0);
        assert(spec_dec_digits(n).drop_last() =~= Seq::<u8>::empty());
        assert(spec_dec_digits(n).last() == (48 + n) as u8);
    } else {
        lemma_dec_digits_val(n / 10);
        let s = spec_dec_digits(n);
        assert(s.drop_last() =~= spec_dec_digits(n / 10));
        assert(s.last() == (48 + n % 10) as u8);
        assert(n % 10 < 10) by {
            vstd::arithmetic::div_mod::lemma_mod_bound(n as int, 10);
        }
        assert(spec_digits_val(s) == (n / 10) * 10 + n % 10);
        assert((n / 10) * 10 + n % 10 == n) by {
            vstd::arithmetic::div_mod::lemma_fundamental_div_mod(n as int, 10);
        }
    }
}

/// A digit run that a non-digit (or the end of the text) closes has exactly
/// the length of its all-digit stretch.
proof fn lemma_run_exact(s: Seq<u8>, i: int, e: int)
    requires
        0 <= i <= e <= s.len(),
        forall|k: int| i <= k < e ==> spec_is_digit(#[trigger] s[k]),
        e == s.len() || !spec_is_digit(s[e]),
    ensures
        spec_digit_run(s, i) == e - i,
    decreases e - i,
{
    if i < e {
        lemma_run_exact(s, i + 1, e);
    }
}

/// A digit literal with a nonzero head has a nonzero value.
proof fn lemma_val_pos(s: Seq<u8>)
    requires
        s.len() >= 1,
        forall|i: int| 0 <= i < s.len() ==> spec_is_digit(#[trigger] s[i]),
        s[0] != 48,
    ensures
        spec_digits_val(s) >= 1,
    decreases s.len(),
{
    if s.len() == 1 {
        assert(s.last() == s[0]);
    } else {
        assert(s.drop_last()[0] == s[0]);
        lemma_val_pos(s.drop_last());
        lemma_digits_val_nonneg(s);
        assert(spec_digits_val(s.drop_last()) * 10 >= 10) by (nonlinear_arith)
            requires spec_digits_val(s.drop_last()) >= 1;
    }
}

/// Writing a canonical literal's value back out in decimal reproduces the
/// literal.
proof fn lemma_canonical_digits_roundtrip(s: Seq<u8>)
    requires
        spec_canonical_digits(s),
    ensures
        spec_digits_val(s) >= 0,
        spec_dec_digits(spec_digits_val(s) as nat) == s,
    decreases s.len(),
{
    lemma_digits_val_nonneg(s);
    let v = spec_digits_val(s);
    if s.len() == 1 {
        assert(spec_digits_val(Seq::<u8>::empty()) == 0);
        assert(s.drop_last() =~= Seq::<u8>::empty());
        assert(s.last() == s[0]);
        assert(v == s[0] - 48);
        assert(spec_dec_digits(v as nat) =~= s);
    } else {
        let head = s.drop_last();
        let d = s.last() - 48;
        assert(head[0] == s[0]);
        assert(forall|i: int| 0 <= i < head.len() ==> spec_is_digit(#[trigger] head[i]));
        lemma_val_pos(head);
        lemma_digits_val_nonneg(head);
        let hv = spec_digits_val(head);
        assert(v == hv * 10 + d);
        assert(v >= 10) by (nonlinear_arith)
            requires hv >= 1, d >= 0, v == hv * 10 + d;
        assert(v / 10 == hv && v % 10 == d) by {
            vstd::arithmetic::div_mod::lemma_fundamental_div_mod_converse(
                v,
                10,
                hv,
                d,
            );
        }
        assert(spec_canonical_digits(head));
        lemma_canonical_digits_roundtrip(head);
        assert(spec_dec_digits(v as nat) == spec_dec_digits(hv as nat).push((48 + d) as u8));
        assert((48 + d) as u8 == s.last());
        assert(spec_dec_digits(v as nat) =~= s);
    }
}

/// Reading a query's canonical serialization back gives the query: one
/// direction of the round trip.
pub proof fn lemma_parse_serialize(q: Query)
    ensures
        spec_parse_query(spec_serialize_query(q)) == Some(q),
{
    let s = spec_serialize_query(q);
    let xd = spec_dec_digits(q.x as nat);
    let yd = spec_dec_digits(q.y as nat);
    lemma_dec_digits_canonical(q.x as nat);
    lemma_dec_digits_canonical(q.y as nat);
    lemma_dec_digits_val(q.x as nat);
    lemma_dec_digits_val(q.y as nat);
    let lx = xd.len() as int;
    let ly = yd.len() as int;
    assert(s.len() == 5 + lx + 5 + ly + 1);
    assert(s.subrange(0, 5) =~= spec_obj_head());
    assert forall|k: int| 5 <= k < 5 + lx implies spec_is_digit(#[trigger] s[k]) by {
        assert(s[k] == xd[k - 5]);
    }
    assert(s[5 + lx] == 44);
    lemma_run_exact(s, 5, 5 + lx);
    assert(s.subrange(5, 5 + lx) =~= xd);
    assert(s.subrange(5 + lx, 5 + lx + 5) =~= spec_obj_mid());
    let j = 5 + lx + 5;
    assert forall|k: int| j <= k < j + ly implies spec_is_digit(#[trigger] s[k]) by {
        assert(s[k] == yd[k - j]);
    }
    assert(s[j + ly] == 125);
    assert(!spec_is_digit(s[j + ly]));
    lemma_run_exact(s, j, j + ly);
    assert(s.subrange(j, j + ly) =~= yd);
    assert(spec_parse_query(s) == Some(q));
}

/// A byte string the parser accepts is the canonical serialization of the
/// query it hands back: the other direction of the round trip.
pub proof fn lemma_serialize_parse(s: Seq<u8>, q: Query)
    requires
        spec_parse_query(s) == Some(q),
    ensures
        spec_serialize_query(q) == s,
{
    let dx = spec_digit_run(s, 5);
    let xs = s.subrange(5, 5 + dx);
    let j = 5 + dx + 5;
    let dy = spec_digit_run(s, j);
    let ys = s.subrange(j, j + dy);
    lemma_canonical_digits_roundtrip(xs);
    lemma_canonical_digits_roundtrip(ys);
    assert(q.x == spec_digits_val(xs) && q.y == spec_digits_val(ys));
    assert(spec_dec_digits(q.x as nat) == xs);
    assert(spec_dec_digits(q.y as nat) == ys);
    assert(spec_serialize_query(q) =~= s) by {
        assert(s.subrange(0, 5) == spec_obj_head());
        assert(s.subrange(5 + dx, 5 + dx + 5) == spec_obj_mid());
        assert(forall|k: int| 0 <= k < 5 ==> s[k] == spec_obj_head()[k]);
        assert(forall|k: int| 0 <= k < 5 ==> s[5 + dx + k] == spec_obj_mid()[k]);
        assert(forall|k: int| 0 <= k < dx ==> s[5 + k] == xs[k]);
        assert(forall|k: int| 0 <= k < dy ==> s[j + k] == ys[k]);
        assert(s[j + dy] == 125);
        assert(s.len() == j + dy + 1);
    }
}

/// A nonempty digit run is made of digits, so only its leading zero can keep
/// it from being canonical.
proof fn lemma_run_is_canonical_shape(s: Seq<u8>, i: int, e: int)
    requires
        0 <= i <= e <= s.len(),
        e == i + spec_digit_run(s, i),
        i < e,
    ensures
        forall|k: int| i <= k < e ==> spec_is_digit(#[trigger] s[k]),
        spec_canonical_digits(s.subrange(i, e)) <==> (e == i + 1 || s[i] != 48),
    decreases e - i,
{
    assert(spec_is_digit(s[i]));
    if i + 1 < e {
        assert(spec_digit_run(s, i) == 1 + spec_digit_run(s, i + 1));
        lemma_run_is_canonical_shape(s, i + 1, e);
    }
    let sub = s.subrange(i, e);
    assert(forall|k: int| 0 <= k < sub.len() ==> sub[k] == s[i + k]);
    if e == i + 1 || s[i] != 48 {
        assert(spec_canonical_digits(sub));
    }
}

} // verus!
