//! The snapshot codec: primitives that write values into a character
//! stream and parse them back, with parsing pinned to spec functions
//! and a proved round trip.
//!
//! Numbers are written as decimal digits, least significant first,
//! closed by a semicolon; strings are written as a length followed by
//! their characters.  Every parser is total: corrupt input yields
//! `None`, never a fault.
use vstd::prelude::*;

use crate::components::{
    AnimV, CarriedBy, ChatRenderable, ChatV, CrabAI, CrabAIState, Disappearing, FPSTracker,
    GraphicAnimatable, GraphicRenderable, GraphicV, Location, PlayerInfo, Renderable,
    TextRenderable, TextV, WantsToBePickedUp, WantsToMoveTo, WantsToStab,
};
use crate::terrain::{TileMap, TileType};
use crate::world::{carries_ok, has_id, idx_of, lemma_idx_of, rec_of, rec_wf, EntityRecord, RecV, World};

verus! {

/// Numeric value of a digit character, or ten for anything else.
pub open spec fn digit_val(c: char) -> nat {
    if c == '0' {
        0
    } else if c == '1' {
        1
    } else if c == '2' {
        2
    } else if c == '3' {
        3
    } else if c == '4' {
        4
    } else if c == '5' {
        5
    } else if c == '6' {
        6
    } else if c == '7' {
        7
    } else if c == '8' {
        8
    } else if c == '9' {
        9
    } else {
        10
    }
}

/// The digit character for a value below ten.
pub open spec fn digit_char(v: nat) -> char {
    if v == 0 {
        '0'
    } else if v == 1 {
        '1'
    } else if v == 2 {
        '2'
    } else if v == 3 {
        '3'
    } else if v == 4 {
        '4'
    } else if v == 5 {
        '5'
    } else if v == 6 {
        '6'
    } else if v == 7 {
        '7'
    } else if v == 8 {
        '8'
    } else {
        '9'
    }
}

/// The digits of `v`, least significant first.
pub open spec fn dec_digits(v: nat) -> Seq<char>
    decreases v,
{
    if v < 10 {
        seq![digit_char(v)]
    } else {
        seq![digit_char(v % 10)] + dec_digits(v / 10)
    }
}

/// The encoding of an unsigned number: its digits closed by a
/// semicolon.
pub open spec fn enc_u64_seq(v: u64) -> Seq<char> {
    dec_digits(v as nat) + seq![';']
}

/// Parse digits from `pos` with multiplier `m` and accumulator `a`,
/// up to the closing semicolon.
pub open spec fn spec_parse_u64_at(s: Seq<char>, pos: int, m: nat, a: nat) -> Option<(u64, int)>
    decreases s.len() - pos,
{
    if pos < 0 || pos >= s.len() {
        Option::None
    } else if s[pos] == ';' {
        if a <= u64::MAX {
            Option::Some((a as u64, pos + 1))
        } else {
            Option::None
        }
    } else if digit_val(s[pos]) < 10 {
        spec_parse_u64_at(s, pos + 1, m * 10, a + digit_val(s[pos]) * m)
    } else {
        Option::None
    }
}

/// Parse an unsigned number at `pos`.
pub open spec fn spec_parse_u64(s: Seq<char>, pos: int) -> Option<(u64, int)> {
    spec_parse_u64_at(s, pos, 1, 0)
}

/// Round trip for numbers: parsing an encoded number from any
/// surrounding stream yields the number and stops right after it.
pub proof fn lemma_parse_enc_u64(s: Seq<char>, pos: int, v: u64)
    requires
        0 <= pos,
        pos + enc_u64_seq(v).len() <= s.len(),
        s.subrange(pos, pos + enc_u64_seq(v).len() as int) == enc_u64_seq(v),
    ensures
        spec_parse_u64(s, pos) == Option::Some((v, pos + enc_u64_seq(v).len() as int)),
{
    let dd = dec_digits(v as nat);
    let e = enc_u64_seq(v);
    assert forall|k: int| 0 <= k < dd.len() implies s[pos + k] == dd[k] by {
        assert(s.subrange(pos, pos + e.len() as int)[k] == s[pos + k]);
        assert(e[k] == dd[k]);
    }
    assert(s.subrange(pos, pos + dd.len() as int) =~= dd);
    assert(s.subrange(pos, pos + e.len() as int)[dd.len() as int] == s[pos + dd.len() as int]);
    assert(e[dd.len() as int] == ';');
    lemma_parse_digits(s, pos, v as nat, 1, 0);
}

/// Generalized round trip: digits of `u` scanned with multiplier `m`
/// onto accumulator `a` end with `a + u * m`.
proof fn lemma_parse_digits(s: Seq<char>, pos: int, u: nat, m: nat, a: nat)
    requires
        0 <= pos,
        m >= 1,
        a + u * m <= u64::MAX,
        pos + dec_digits(u).len() + 1 <= s.len(),
        s.subrange(pos, pos + dec_digits(u).len() as int) == dec_digits(u),
        s[pos + dec_digits(u).len() as int] == ';',
    ensures
        spec_parse_u64_at(s, pos, m, a) == Option::Some(
            ((a + u * m) as u64, pos + dec_digits(u).len() + 1),
        ),
    decreases u,
{
    let dd = dec_digits(u);
    assert(s[pos] == dd[0]);
    if u < 10 {
        assert(dd.len() == 1);
        assert(dd[0] == digit_char(u));
        assert(digit_val(digit_char(u)) == u);
        assert(s[pos + 1] == ';');
        assert(a + u * m + 0 * (m * 10) == a + u * m);
        assert(spec_parse_u64_at(s, pos + 1, m * 10, a + u * m) == Option::Some(
            ((a + u * m) as u64, pos + 2),
        ));
    } else {
        assert(dd[0] == digit_char(u % 10));
        assert(digit_val(dd[0]) == u % 10);
        let rest = dec_digits(u / 10);
        assert(dd == seq![digit_char(u % 10)] + rest);
        assert forall|k: int| 0 <= k < rest.len() implies s[pos + 1 + k] == rest[k] by {
            assert(dd[1 + k] == rest[k]);
            assert(s[pos + 1 + k] == dd[1 + k]);
        }
        assert(s.subrange(pos + 1, pos + 1 + rest.len() as int) =~= rest);
        assert((a + (u % 10) * m) + (u / 10) * (m * 10) == a + u * m) by (nonlinear_arith);
        assert(a + (u % 10) * m <= a + u * m) by (nonlinear_arith)
            requires
                m >= 1,
                u >= 0;
        lemma_parse_digits(s, pos + 1, u / 10, m * 10, a + (u % 10) * m);
        assert(m * 10 >= 1) by (nonlinear_arith)
            requires m >= 1;
    }
}

/// Append the encoding of `v` to the stream.
pub fn enc_u64(out: &mut Vec<char>, v: u64)
    ensures
        final(out)@ == old(out)@ + enc_u64_seq(v),
{
    let ghost base = out@;
    let mut rem = v;
    loop
        invariant_except_break
            out@.len() >= base.len(),
            out@.subrange(0, base.len() as int) == base,
            dec_digits(v as nat) == out@.skip(base.len() as int) + dec_digits(rem as nat),
        ensures
            out@.len() >= base.len(),
            out@.subrange(0, base.len() as int) == base,
            out@.skip(base.len() as int) == dec_digits(v as nat),
        decreases rem,
    {
        let d = (rem % 10) as u8;
        let c: char = match d {
            0 => '0',
            1 => '1',
            2 => '2',
            3 => '3',
            4 => '4',
            5 => '5',
            6 => '6',
            7 => '7',
            8 => '8',
            _ => '9',
        };
        proof {
            assert(c == digit_char(rem as nat % 10));
        }
        let ghost pre = out@;
        out.push(c);
        proof {
            assert(out@.subrange(0, base.len() as int) =~= base);
        }
        if rem < 10 {
            proof {
                assert(dec_digits(rem as nat) == seq![digit_char(rem as nat)]);
                assert(out@.skip(base.len() as int) =~= pre.skip(base.len() as int) + seq![c]);
                assert(dec_digits(v as nat) =~= out@.skip(base.len() as int));
            }
            break;
        }
        proof {
            assert(dec_digits(rem as nat) =~= seq![digit_char(rem as nat % 10)] + dec_digits(
                rem as nat / 10,
            ));
            assert(out@.skip(base.len() as int) =~= pre.skip(base.len() as int) + seq![c]);
            assert(dec_digits(v as nat) =~= out@.skip(base.len() as int) + dec_digits(
                rem as nat / 10,
            ));
        }
        rem = rem / 10;
    }
    let ghost pre2 = out@;
    out.push(';');
    proof {
        assert(out@ =~= pre2 + seq![';']);
        assert(pre2 =~= pre2.subrange(0, base.len() as int) + pre2.skip(base.len() as int));
        assert(pre2 =~= base + dec_digits(v as nat));
        assert(out@ =~= base + enc_u64_seq(v));
    }
}

} // verus!

verus! {

} // verus!

verus! {

/// The decimal digits of `v` in display order, most significant
/// first.
pub open spec fn dec_string(v: nat) -> Seq<char> {
    dec_digits(v).reverse()
}

/// Render a number as decimal text for display.
pub fn u64_to_string(v: u64) -> (r: String)
    ensures
        r@ == dec_string(v as nat),
{
    let mut le: Vec<char> = Vec::new();
    let mut rem = v;
    loop
        invariant_except_break
            le@.len() >= 0,
            dec_digits(v as nat) == le@ + dec_digits(rem as nat),
        ensures
            le@ == dec_digits(v as nat),
        decreases rem,
    {
        let d = (rem % 10) as u8;
        let c: char = match d {
            0 => '0',
            1 => '1',
            2 => '2',
            3 => '3',
            4 => '4',
            5 => '5',
            6 => '6',
            7 => '7',
            8 => '8',
            _ => '9',
        };
        proof {
            assert(c == digit_char(rem as nat % 10));
        }
        let ghost pre = le@;
        le.push(c);
        if rem < 10 {
            proof {
                assert(dec_digits(rem as nat) == seq![digit_char(rem as nat)]);
                assert(le@ =~= pre + seq![c]);
                assert(dec_digits(v as nat) =~= le@);
            }
            break;
        }
        proof {
            assert(dec_digits(rem as nat) =~= seq![digit_char(rem as nat % 10)] + dec_digits(
                rem as nat / 10,
            ));
            assert(le@ =~= pre + seq![c]);
            assert(dec_digits(v as nat) =~= le@ + dec_digits(rem as nat / 10));
        }
        rem = rem / 10;
    }
    let mut out: Vec<char> = Vec::new();
    let n = le.len();
    let mut i: usize = 0;
    while i < n
        invariant
            n == le@.len(),
            i <= n,
            out@.len() == i,
            forall|j: int| 0 <= j < i ==> #[trigger] out@[j] == le@[n - 1 - j],
        decreases n - i,
    {
        out.push(le[n - 1 - i]);
        i = i + 1;
    }
    proof {
        assert(out@ =~= le@.reverse());
    }
    chars_string(&out)
}

/// Parse one number at `pos`, mirroring the spec parser exactly.
pub fn parse_u64(s: &Vec<char>, pos: usize) -> (r: Option<(u64, usize)>)
    requires
        pos <= s@.len(),
    ensures
        match r {
            Option::Some(vp) => spec_parse_u64(s@, pos as int) == Option::Some(
                (vp.0, vp.1 as int),
            ) && pos < vp.1 <= s@.len(),
            Option::None => spec_parse_u64(s@, pos as int) is None,
        },
{
    let ghost n = s@.len() as int;
    let mut p = pos;
    let mut m: u64 = 1;
    let mut a: u64 = 0;
    let ghost sm: nat = 1;
    let ghost sa: nat = 0;
    let mut overflowed = false;
    let mut m_big = false;
    let mut result: Option<(u64, usize)> = Option::None;
    loop
        invariant_except_break
            pos <= p <= s@.len(),
            spec_parse_u64(s@, pos as int) == spec_parse_u64_at(s@, p as int, sm, sa),
            !m_big ==> sm == m as nat && m >= 1,
            m_big ==> sm > u64::MAX,
            !overflowed ==> sa == a as nat,
            overflowed ==> sa > u64::MAX,
            sm >= 1,
        ensures
            match result {
                Option::Some(vp) => spec_parse_u64(s@, pos as int) == Option::Some(
                    (vp.0, vp.1 as int),
                ) && pos < vp.1 <= s@.len(),
                Option::None => spec_parse_u64(s@, pos as int) is None,
            },
        decreases s@.len() - p,
    {
        if p >= s.len() {
            result = Option::None;
            break;
        }
        let c = s[p];
        if c == ';' {
            if overflowed {
                result = Option::None;
            } else {
                result = Option::Some((a, p + 1));
            }
            break;
        }
        let d: u64 = match c {
            '0' => 0,
            '1' => 1,
            '2' => 2,
            '3' => 3,
            '4' => 4,
            '5' => 5,
            '6' => 6,
            '7' => 7,
            '8' => 8,
            '9' => 9,
            _ => 10,
        };
        proof {
            assert(d as nat == digit_val(s@[p as int]));
        }
        if d == 10 {
            result = Option::None;
            break;
        }
        // fold the digit in, tracking overflow against the spec's
        // unbounded accumulator
        proof {
            assert(spec_parse_u64_at(s@, p as int, sm, sa) == spec_parse_u64_at(
                s@,
                p as int + 1,
                sm * 10,
                sa + (d as nat) * sm,
            ));
        }
        if !overflowed && !m_big {
            if d > 0 && (u64::MAX - a) / m < d {
                overflowed = true;
                proof {
                    assert((d as nat) * sm >= 1 * sm) by (nonlinear_arith)
                        requires d >= 1, sm >= 1;
                    assert(sa + (d as nat) * sm > u64::MAX) by (nonlinear_arith)
                        requires
                            sa == a as nat,
                            sm == m as nat,
                            d >= 1,
                            (u64::MAX - a as int) / (m as int) < d as int,
                            m >= 1;
                }
            } else {
                proof {
                    if d > 0 {
                        assert(a + d * m <= u64::MAX) by (nonlinear_arith)
                            requires
                                m >= 1,
                                1 <= d <= 9,
                                (u64::MAX - a as int) / (m as int) >= d as int,
                                a <= u64::MAX;
                    }
                    assert(0 * m == 0) by (nonlinear_arith);
                }
                a = a + d * m;
            }
        } else {
            proof {
                if overflowed {
                    assert(sa + (d as nat) * sm >= sa) by (nonlinear_arith)
                        requires sm >= 1, d >= 0;
                } else {
                    if d > 0 {
                        assert(sa + (d as nat) * sm >= sm) by (nonlinear_arith)
                            requires d >= 1, sa >= 0, sm >= 1;
                    }
                }
            }
            if !overflowed && d > 0 {
                overflowed = true;
            } else {
                proof {
                    if !overflowed {
                        assert((d as nat) * sm == 0) by (nonlinear_arith)
                            requires d == 0;
                    }
                }
            }
        }
        proof {
            sa = sa + (d as nat) * sm;
        }
        if !m_big {
            if m > u64::MAX / 10 {
                m_big = true;
                proof {
                    assert(sm * 10 > u64::MAX) by (nonlinear_arith)
                        requires
                            sm == m as nat,
                            m > u64::MAX / 10;
                }
            } else {
                proof {
                    assert(m * 10 <= u64::MAX) by (nonlinear_arith)
                        requires m <= u64::MAX / 10;
                }
                m = m * 10;
            }
        } else {
            proof {
                assert(sm * 10 > u64::MAX) by (nonlinear_arith)
                    requires sm > u64::MAX;
            }
        }
        proof {
            sm = sm * 10;
        }
        p = p + 1;
    }
    result
}

} // verus!

verus! {

/// The character stream of a whole token list.
pub open spec fn enc_tokens(ts: Seq<u64>) -> Seq<char>
    decreases ts.len(),
{
    if ts.len() == 0 {
        Seq::empty()
    } else {
        enc_u64_seq(ts[0]) + enc_tokens(ts.drop_first())
    }
}

/// Parse numbers until the end of the stream, with fuel bounding the
/// recursion.
pub open spec fn parse_tokens_rec(s: Seq<char>, pos: int, fuel: nat) -> Option<Seq<u64>>
    decreases fuel,
{
    if pos == s.len() {
        Option::Some(Seq::empty())
    } else if fuel == 0 {
        Option::None
    } else {
        match spec_parse_u64(s, pos) {
            Option::Some(vp) => {
                if pos < vp.1 <= s.len() {
                    match parse_tokens_rec(s, vp.1, (fuel - 1) as nat) {
                        Option::Some(rest) => Option::Some(seq![vp.0] + rest),
                        Option::None => Option::None,
                    }
                } else {
                    Option::None
                }
            },
            Option::None => Option::None,
        }
    }
}

/// Parse a whole stream into its token list.
pub open spec fn spec_parse_tokens(s: Seq<char>) -> Option<Seq<u64>> {
    parse_tokens_rec(s, 0, s.len())
}

/// More fuel than steps makes the fuel irrelevant.
proof fn lemma_tokens_fuel(s: Seq<char>, pos: int, f1: nat, f2: nat)
    requires
        0 <= pos <= s.len(),
        f1 >= s.len() - pos,
        f2 >= s.len() - pos,
    ensures
        parse_tokens_rec(s, pos, f1) == parse_tokens_rec(s, pos, f2),
    decreases f1 + f2,
{
    if pos != s.len() {
        match spec_parse_u64(s, pos) {
            Option::Some(vp) => {
                if pos < vp.1 <= s.len() {
                    lemma_tokens_fuel(s, vp.1, (f1 - 1) as nat, (f2 - 1) as nat);
                }
            },
            Option::None => {},
        }
    }
}

/// Round trip for token lists: parsing an encoded list appended to an
/// already-parsed position yields exactly the list.
proof fn lemma_parse_enc_tokens(s: Seq<char>, pos: int, ts: Seq<u64>)
    requires
        0 <= pos,
        pos + enc_tokens(ts).len() == s.len(),
        s.subrange(pos, s.len() as int) == enc_tokens(ts),
    ensures
        parse_tokens_rec(s, pos, (s.len() - pos) as nat) == Option::Some(ts),
    decreases ts.len(),
{
    if ts.len() == 0 {
    } else {
        let e0 = enc_u64_seq(ts[0]);
        let rest = enc_tokens(ts.drop_first());
        assert(enc_tokens(ts) == e0 + rest);
        assert forall|k: int| 0 <= k < e0.len() implies s[pos + k] == e0[k] by {
            assert(s.subrange(pos, s.len() as int)[k] == s[pos + k]);
            assert((e0 + rest)[k] == e0[k]);
        }
        assert(s.subrange(pos, pos + e0.len() as int) =~= e0);
        lemma_parse_enc_u64(s, pos, ts[0]);
        let p2 = pos + e0.len() as int;
        assert forall|k: int| 0 <= k < rest.len() implies s[p2 + k] == rest[k] by {
            assert(s.subrange(pos, s.len() as int)[e0.len() + k] == s[pos + e0.len() + k]);
            assert((e0 + rest)[e0.len() + k] == rest[k]);
        }
        assert(s.subrange(p2, s.len() as int) =~= rest);
        lemma_parse_enc_tokens(s, p2, ts.drop_first());
        assert(e0.len() >= 2);
        lemma_tokens_fuel(s, p2, (s.len() - p2) as nat, (s.len() - pos - 1) as nat);
        assert(seq![ts[0]] + ts.drop_first() =~= ts);
    }
}

/// Parsing the encoding of a token list gives the list back.
pub proof fn lemma_tokens_round(ts: Seq<u64>)
    ensures
        spec_parse_tokens(enc_tokens(ts)) == Option::Some(ts),
{
    let s = enc_tokens(ts);
    assert(s.subrange(0, s.len() as int) =~= s);
    lemma_parse_enc_tokens(s, 0, ts);
}

/// Relies on str::chars: the characters of a string slice, in order.
#[verifier::external_body]
fn str_chars(s: &str) -> (r: Vec<char>)
    ensures
        r@ == s@,
{
    s.chars().collect()
}

/// Relies on String::from_iter over characters: collecting characters
/// builds the string with exactly those characters.
#[verifier::external_body]
fn chars_string(v: &Vec<char>) -> (r: String)
    ensures
        r@ == v@,
{
    v.iter().collect()
}

/// Every character's code point is below the highest scalar value
/// and outside the surrogate range.
proof fn lemma_char_range(c: char)
    ensures
        ({
            let v = c as u32;
            v < 0x110000 && (v < 0xD800 || v >= 0xE000) && c as u64 == v as u64
        }),
{
}

/// Relies on char::from_u32: code points below the surrogate range,
/// or between it and the highest code point, convert to the character
/// with that code; everything else is refused.
#[verifier::external_body]
fn char_from_u32(v: u32) -> (r: Option<char>)
    ensures
        r matches Option::Some(c) ==> c == v as char && c as u32 == v,
        (r is Some) <==> (v < 0xD800 || (0xE000 <= v && v < 0x110000)),
{
    char::from_u32(v)
}

/// Write a token list as text.
pub fn tokens_to_text(ts: &Vec<u64>) -> (r: String)
    ensures
        r@ == enc_tokens(ts@),
{
    let mut out: Vec<char> = Vec::new();
    let mut i: usize = 0;
    proof {
        assert(ts@.skip(0) =~= ts@);
    }
    while i < ts.len()
        invariant
            i <= ts@.len(),
            enc_tokens(ts@) == out@ + enc_tokens(ts@.skip(i as int)),
        decreases ts@.len() - i,
    {
        let ghost pre = out@;
        enc_u64(&mut out, ts[i]);
        proof {
            let tail = ts@.skip(i as int);
            assert(tail[0] == ts@[i as int]);
            assert(tail.drop_first() =~= ts@.skip(i as int + 1));
            assert(enc_tokens(tail) == enc_u64_seq(ts@[i as int]) + enc_tokens(
                ts@.skip(i as int + 1),
            ));
            assert(enc_tokens(ts@) =~= out@ + enc_tokens(ts@.skip(i as int + 1)));
        }
        i = i + 1;
    }
    proof {
        assert(ts@.skip(ts@.len() as int) =~= Seq::<u64>::empty());
        assert(enc_tokens(ts@) =~= out@);
    }
    chars_string(&out)
}

/// Parse text into its token list, refusing malformed input.
pub fn text_to_tokens(s: &str) -> (r: Option<Vec<u64>>)
    ensures
        match r {
            Option::Some(ts) => spec_parse_tokens(s@) == Option::Some(ts@),
            Option::None => spec_parse_tokens(s@) is None,
        },
{
    let cs = str_chars(s);
    let ghost sv = s@;
    let n = cs.len();
    let mut acc: Vec<u64> = Vec::new();
    let mut pos: usize = 0;
    let mut ok = false;
    loop
        invariant_except_break
            cs@ == sv,
            n == sv.len(),
            pos <= n,
            ok == false,
            ({
                let whole = parse_tokens_rec(sv, 0, sv.len());
                let here = parse_tokens_rec(sv, pos as int, (sv.len() - pos) as nat);
                match here {
                    Option::Some(rest) => whole == Option::Some(acc@ + rest),
                    Option::None => whole is None,
                }
            }),
        ensures
            match parse_tokens_rec(sv, 0, sv.len()) {
                Option::Some(all) => ok && acc@ == all,
                Option::None => !ok,
            },
        decreases n - pos,
    {
        if pos == n {
            ok = true;
            proof {
                assert(acc@ + Seq::<u64>::empty() =~= acc@);
            }
            break;
        }
        let step = parse_u64(&cs, pos);
        match step {
            Option::Some((v, p2)) => {
                proof {
                    lemma_tokens_fuel(
                        sv,
                        p2 as int,
                        (sv.len() - pos - 1) as nat,
                        (sv.len() - p2) as nat,
                    );
                }
                acc.push(v);
                proof {
                    let here2 = parse_tokens_rec(sv, p2 as int, (sv.len() - p2) as nat);
                    match here2 {
                        Option::Some(rest2) => {
                            assert(acc@ + rest2 =~= acc@.drop_last() + (seq![v] + rest2));
                        },
                        Option::None => {},
                    }
                }
                pos = p2;
            },
            Option::None => {
                proof {
                    assert(parse_tokens_rec(sv, pos as int, (sv.len() - pos) as nat) is None);
                }
                break;
            },
        }
    }
    if ok {
        Option::Some(acc)
    } else {
        Option::None
    }
}

} // verus!

verus! {

/// An `i32` carried as a token, shifted into unsigned range.
pub open spec fn i32_tok(x: i32) -> u64 {
    (x as int + 0x80000000) as u64
}

/// An `i16` carried as a token, shifted into unsigned range.
pub open spec fn i16_tok(x: i16) -> u64 {
    (x as int + 0x8000) as u64
}

/// A string carried as tokens: its length, then one token per
/// character.
pub open spec fn str_toks(t: Seq<char>) -> Seq<u64> {
    seq![t.len() as u64] + t.map_values(|c: char| c as u64)
}

/// A list of strings carried as tokens.
pub open spec fn strs_toks(names: Seq<Seq<char>>) -> Seq<u64>
    decreases names.len(),
{
    if names.len() == 0 {
        Seq::empty()
    } else {
        str_toks(names[0]) + strs_toks(names.drop_first())
    }
}

/// Token form of the frame-rate slot.
pub open spec fn fps_toks(o: Option<FPSTracker>) -> Seq<u64> {
    match o {
        Option::Some(f) => seq![1u64, f.for_time, f.seen_frames as u64, f.prev_fps as u64],
        Option::None => seq![0u64],
    }
}

/// Token form of the location slot.
pub open spec fn loc_toks(o: Option<Location>) -> Seq<u64> {
    match o {
        Option::Some(l) => seq![1u64, i32_tok(l.x), i32_tok(l.y)],
        Option::None => seq![0u64],
    }
}

/// Token form of the player slot.
pub open spec fn player_toks(o: Option<Seq<char>>) -> Seq<u64> {
    match o {
        Option::Some(p) => seq![1u64] + str_toks(p),
        Option::None => seq![0u64],
    }
}

/// Token form of the draw-order slot.
pub open spec fn rend_toks(o: Option<Renderable>) -> Seq<u64> {
    match o {
        Option::Some(d) => seq![1u64, i32_tok(d.render_order)],
        Option::None => seq![0u64],
    }
}

/// Token form of the text slot.
pub open spec fn text_toks(o: Option<TextV>) -> Seq<u64> {
    match o {
        Option::Some(t) => seq![1u64] + str_toks(t.text) + seq![
            i32_tok(t.font_size),
            i32_tok(t.offset_x),
            i32_tok(t.offset_y),
        ],
        Option::None => seq![0u64],
    }
}

/// Token form of the chat slot.
pub open spec fn chat_toks(o: Option<ChatV>) -> Seq<u64> {
    match o {
        Option::Some(t) => seq![1u64] + str_toks(t.text) + seq![
            i32_tok(t.offset_x),
            i32_tok(t.offset_y),
        ],
        Option::None => seq![0u64],
    }
}

/// Token form of the image slot.
pub open spec fn graphic_toks(o: Option<GraphicV>) -> Seq<u64> {
    match o {
        Option::Some(t) => seq![1u64] + str_toks(t.image_name) + seq![
            i32_tok(t.offset_x),
            i32_tok(t.offset_y),
        ],
        Option::None => seq![0u64],
    }
}

/// Token form of the animation slot.
pub open spec fn anim_toks(o: Option<AnimV>) -> Seq<u64> {
    match o {
        Option::Some(a) => seq![1u64, a.image_names.len() as u64] + strs_toks(a.image_names)
            + seq![i16_tok(a.tick_interval), i16_tok(a.ticks)],
        Option::None => seq![0u64],
    }
}

/// Token form of the movement-intent slot.
pub open spec fn move_toks(o: Option<WantsToMoveTo>) -> Seq<u64> {
    match o {
        Option::Some(m) => seq![1u64, i32_tok(m.x), i32_tok(m.y), i16_tok(m.speed)],
        Option::None => seq![0u64],
    }
}

/// Token form of the countdown slot.
pub open spec fn disap_toks(o: Option<Disappearing>) -> Seq<u64> {
    match o {
        Option::Some(d) => seq![1u64, d.total_ticks as u64, d.ticks_left as u64],
        Option::None => seq![0u64],
    }
}

/// Token form of the carry slot.
pub open spec fn carried_toks(o: Option<CarriedBy>) -> Seq<u64> {
    match o {
        Option::Some(c) => seq![1u64, c.owner],
        Option::None => seq![0u64],
    }
}

/// Token form of the crab slot.
pub open spec fn crab_toks(o: Option<CrabAI>) -> Seq<u64> {
    match o {
        Option::Some(c) => seq![
            1u64,
            crab_state_tok(c.crab_state),
            i16_tok(c.tick_interval),
            i16_tok(c.ticks),
            i16_tok(c.walk_speed),
            i16_tok(c.sleep_duration),
        ],
        Option::None => seq![0u64],
    }
}

/// Token form of the two marker flags.
pub open spec fn flags_toks(pickup: bool, stab: bool) -> Seq<u64> {
    seq![
        if pickup {
            1u64
        } else {
            0u64
        },
        if stab {
            1u64
        } else {
            0u64
        },
    ]
}

/// The token form of one entity record, keyed by its marker; the
/// owner of a carry relation is already the owner's marker.
pub open spec fn rec_toks(r: RecV) -> Seq<u64> {
    seq![r.marker] + fps_toks(r.fps_tracker) + loc_toks(r.location) + player_toks(r.player_info)
        + rend_toks(r.renderable) + text_toks(r.text_renderable) + chat_toks(r.chat_renderable)
        + graphic_toks(r.graphic_renderable) + anim_toks(r.graphic_animatable) + move_toks(
        r.wants_to_move_to,
    ) + disap_toks(r.disappearing) + carried_toks(r.carried_by) + crab_toks(r.crab_ai)
        + flags_toks(r.wants_to_be_picked_up, r.wants_to_stab)
}

/// The token of a crab phase.
pub open spec fn crab_state_tok(s: CrabAIState) -> u64 {
    match s {
        CrabAIState::WalkingRight => 0,
        CrabAIState::SleepingRight => 1,
        CrabAIState::WalkingLeft => 2,
        CrabAIState::SleepingLeft => 3,
    }
}

/// The token form of a record sequence.
pub open spec fn recs_toks(s: Seq<RecV>) -> Seq<u64>
    decreases s.len(),
{
    if s.len() == 0 {
        Seq::empty()
    } else {
        rec_toks(s[0]) + recs_toks(s.drop_first())
    }
}

/// The token form of a whole world: the entity count, then every
/// record.
pub open spec fn world_toks(s: Seq<RecV>) -> Seq<u64> {
    seq![s.len() as u64] + recs_toks(s)
}

/// One record as it goes onto the wire: the carry owner replaced by
/// the owner's marker.
pub open spec fn wire_rec(r: RecV, s: Seq<RecV>) -> RecV {
    match r.carried_by {
        Option::Some(c) => RecV {
            carried_by: Option::Some(CarriedBy { owner: rec_of(s, c.owner).marker }),
            ..r
        },
        Option::None => r,
    }
}

/// The whole arena as it goes onto the wire.
pub open spec fn wire_of(s: Seq<RecV>) -> Seq<RecV> {
    Seq::new(s.len(), |i: int| wire_rec(s[i], s))
}

} // verus!

verus! {

/// Appending a record extends the token form at the end.
proof fn lemma_recs_toks_snoc(s: Seq<RecV>, r: RecV)
    ensures
        recs_toks(s.push(r)) == recs_toks(s) + rec_toks(r),
    decreases s.len(),
{
    if s.len() == 0 {
        assert(s.push(r)[0] == r);
        assert(s.push(r).drop_first() =~= Seq::<RecV>::empty());
        assert(recs_toks(s.push(r)) == rec_toks(r) + recs_toks(Seq::<RecV>::empty()));
        assert(recs_toks(Seq::<RecV>::empty()) == Seq::<u64>::empty());
        assert(rec_toks(r) + Seq::<u64>::empty() =~= rec_toks(r));
        assert(recs_toks(s) + rec_toks(r) =~= rec_toks(r));
    } else {
        assert(s.push(r)[0] == s[0]);
        assert(s.push(r).drop_first() =~= s.drop_first().push(r));
        lemma_recs_toks_snoc(s.drop_first(), r);
        assert(recs_toks(s.push(r)) =~= recs_toks(s) + rec_toks(r));
    }
}

/// Appending a name extends the token form at the end.
proof fn lemma_strs_toks_snoc(s: Seq<Seq<char>>, t: Seq<char>)
    ensures
        strs_toks(s.push(t)) == strs_toks(s) + str_toks(t),
    decreases s.len(),
{
    if s.len() == 0 {
        assert(s.push(t)[0] == t);
        assert(s.push(t).drop_first() =~= Seq::<Seq<char>>::empty());
        assert(strs_toks(s.push(t)) == str_toks(t) + strs_toks(Seq::<Seq<char>>::empty()));
        assert(strs_toks(Seq::<Seq<char>>::empty()) == Seq::<u64>::empty());
        assert(str_toks(t) + Seq::<u64>::empty() =~= str_toks(t));
        assert(strs_toks(s) + str_toks(t) =~= str_toks(t));
    } else {
        assert(s.push(t)[0] == s[0]);
        assert(s.push(t).drop_first() =~= s.drop_first().push(t));
        lemma_strs_toks_snoc(s.drop_first(), t);
        assert(strs_toks(s.push(t)) =~= strs_toks(s) + str_toks(t));
    }
}

/// Push the token form of one string.
fn push_str_toks(out: &mut Vec<u64>, s: &str)
    ensures
        final(out)@ == old(out)@ + str_toks(s@),
{
    let cs = str_chars(s);
    let ghost base = out@;
    out.push(cs.len() as u64);
    let mut i: usize = 0;
    while i < cs.len()
        invariant
            cs@ == s@,
            i <= cs@.len(),
            out@.len() == base.len() + 1 + i,
            out@ == base + seq![s@.len() as u64] + s@.map_values(|c: char| c as u64).take(
                i as int,
            ),
        decreases cs@.len() - i,
    {
        let c = cs[i];
        out.push(c as u64);
        proof {
            assert(out@ =~= base + seq![s@.len() as u64] + s@.map_values(
                |c: char| c as u64,
            ).take(i as int + 1));
        }
        i = i + 1;
    }
    proof {
        assert(s@.map_values(|c: char| c as u64).take(s@.len() as int) =~= s@.map_values(
            |c: char| c as u64,
        ));
        assert(out@ =~= base + str_toks(s@));
    }
}

/// Push the token form of a list of names.
fn push_strs_toks(out: &mut Vec<u64>, names: &Vec<String>)
    ensures
        final(out)@ == old(out)@ + strs_toks(
            Seq::new(names@.len(), |i: int| names@[i]@),
        ),
{
    let ghost base = out@;
    let ghost nv = Seq::new(names@.len(), |i: int| names@[i]@);
    let mut i: usize = 0;
    proof {
        assert(nv.take(0) =~= Seq::<Seq<char>>::empty());
        assert(out@ =~= base + strs_toks(nv.take(0)));
    }
    while i < names.len()
        invariant
            i <= names@.len(),
            nv == Seq::new(names@.len(), |i: int| names@[i]@),
            out@ == base + strs_toks(nv.take(i as int)),
        decreases names@.len() - i,
    {
        push_str_toks(out, names[i].as_str());
        proof {
            assert(nv.take(i as int).push(nv[i as int]) =~= nv.take(i as int + 1));
            lemma_strs_toks_snoc(nv.take(i as int), nv[i as int]);
        }
        i = i + 1;
    }
    proof {
        assert(nv.take(nv.len() as int) =~= nv);
    }
}

/// Adjacent token ranges concatenate.
proof fn lemma_tok_join(ts: Seq<u64>, a: int, b: int, c: int)
    requires
        0 <= a <= b <= c <= ts.len(),
    ensures
        ts.subrange(a, c) == ts.subrange(a, b) + ts.subrange(b, c),
{
    assert(ts.subrange(a, c) =~= ts.subrange(a, b) + ts.subrange(b, c));
}

/// A concatenation equality at a position splits into its parts.
proof fn lemma_tok_split(ts: Seq<u64>, pos: int, a: Seq<u64>, b: Seq<u64>)
    requires
        0 <= pos,
        pos + a.len() + b.len() <= ts.len(),
        ts.subrange(pos, pos + a.len() + b.len()) == a + b,
    ensures
        ts.subrange(pos, pos + a.len() as int) == a,
        ts.subrange(pos + a.len() as int, pos + a.len() + b.len()) == b,
{
    assert forall|k: int| 0 <= k < a.len() implies ts[pos + k] == a[k] by {
        assert(ts.subrange(pos, pos + a.len() + b.len())[k] == ts[pos + k]);
        assert((a + b)[k] == a[k]);
    }
    assert(ts.subrange(pos, pos + a.len() as int) =~= a);
    assert forall|k: int| 0 <= k < b.len() implies ts[pos + a.len() + k] == b[k] by {
        assert(ts.subrange(pos, pos + a.len() + b.len())[a.len() + k] == ts[pos + a.len() + k]);
        assert((a + b)[a.len() + k] == b[k]);
    }
    assert(ts.subrange(pos + a.len() as int, pos + a.len() + b.len()) =~= b);
}

/// Two string encodings starting at one position are the same
/// string: the leading length token decides everything after it.
proof fn lemma_str_toks_det(ts: Seq<u64>, pos: int, a: Seq<char>, b: Seq<char>)
    requires
        0 <= pos,
        ts.len() <= usize::MAX,
        pos + str_toks(a).len() <= ts.len(),
        pos + str_toks(b).len() <= ts.len(),
        ts.subrange(pos, pos + str_toks(a).len() as int) == str_toks(a),
        ts.subrange(pos, pos + str_toks(b).len() as int) == str_toks(b),
    ensures
        a == b,
{
    assert(ts.subrange(pos, pos + str_toks(a).len() as int)[0] == ts[pos]);
    assert(ts.subrange(pos, pos + str_toks(b).len() as int)[0] == ts[pos]);
    assert(str_toks(a)[0] == a.len() as u64);
    assert(str_toks(b)[0] == b.len() as u64);
    assert(a.len() as u64 == b.len() as u64);
    assert(1 + a.len() <= ts.len() - pos);
    assert(1 + b.len() <= ts.len() - pos);
    assert(a.len() < 0x10000000000000000 && b.len() < 0x10000000000000000);
    assert(a.len() == b.len());
    assert forall|k: int| 0 <= k < a.len() implies a[k] == b[k] by {
        assert(ts.subrange(pos, pos + str_toks(a).len() as int)[1 + k] == ts[pos + 1 + k]);
        assert(ts.subrange(pos, pos + str_toks(b).len() as int)[1 + k] == ts[pos + 1 + k]);
        assert(str_toks(a)[1 + k] == a.map_values(|c: char| c as u64)[k]);
        assert(str_toks(b)[1 + k] == b.map_values(|c: char| c as u64)[k]);
        lemma_char_range(a[k]);
        lemma_char_range(b[k]);
        assert(a[k] as u64 == b[k] as u64);
        assert(a[k] as u32 == b[k] as u32);
        lemma_char_inj(a[k], b[k]);
    }
    assert(a =~= b);
}

/// Distinct characters have distinct code points.
proof fn lemma_char_inj(a: char, b: char)
    requires
        a as u32 == b as u32,
    ensures
        a == b,
{
}

/// A string list's token form is at least one token per string.
proof fn lemma_strs_toks_min_len(a: Seq<Seq<char>>)
    ensures
        strs_toks(a).len() >= a.len(),
    decreases a.len(),
{
    if a.len() > 0 {
        lemma_strs_toks_min_len(a.drop_first());
    }
}

/// A parsed prefix of a string list agrees with the list: the names
/// read so far are its first entries, and the remainder of the
/// stream still holds the rest.
proof fn lemma_strs_prefix(ts: Seq<u64>, base: int, done: Seq<Seq<char>>, all: Seq<Seq<char>>)
    requires
        0 <= base,
        ts.len() <= usize::MAX,
        done.len() <= all.len(),
        base + strs_toks(all).len() <= ts.len(),
        base + strs_toks(done).len() <= ts.len(),
        ts.subrange(base, base + strs_toks(all).len() as int) == strs_toks(all),
        ts.subrange(base, base + strs_toks(done).len() as int) == strs_toks(done),
    ensures
        done == all.take(done.len() as int),
        strs_toks(done).len() <= strs_toks(all).len(),
        ts.subrange(
            base + strs_toks(done).len() as int,
            base + strs_toks(all).len() as int,
        ) == strs_toks(all.skip(done.len() as int)),
    decreases done.len(),
{
    if done.len() == 0 {
        assert(done =~= all.take(0));
        assert(all.skip(0) =~= all);
        assert(ts.subrange(base, base + strs_toks(all).len() as int) == strs_toks(all));
    } else {
        assert(all.len() >= 1);
        assert(strs_toks(done) == str_toks(done[0]) + strs_toks(done.drop_first()));
        assert(strs_toks(all) == str_toks(all[0]) + strs_toks(all.drop_first()));
        lemma_tok_split(ts, base, str_toks(done[0]), strs_toks(done.drop_first()));
        lemma_tok_split(ts, base, str_toks(all[0]), strs_toks(all.drop_first()));
        lemma_str_toks_det(ts, base, done[0], all[0]);
        let step = str_toks(done[0]).len() as int;
        lemma_strs_prefix(ts, base + step, done.drop_first(), all.drop_first());
        assert(done.drop_first() == all.drop_first().take(done.len() - 1));
        assert forall|j: int| 0 <= j < done.len() implies done[j] == all.take(
            done.len() as int,
        )[j] by {
            if j > 0 {
                assert(done.drop_first()[j - 1] == all.drop_first().take(done.len() - 1)[j - 1]);
                assert(done[j] == done.drop_first()[j - 1]);
                assert(all.drop_first()[j - 1] == all[j]);
            }
        }
        assert(done =~= all.take(done.len() as int));
        assert(all.drop_first().skip(done.len() - 1) =~= all.skip(done.len() as int));
    }
}

/// The view of an optional player slot.
pub open spec fn opt_player_view(o: Option<PlayerInfo>) -> Option<Seq<char>> {
    match o {
        Option::Some(p) => Option::Some(p@),
        Option::None => Option::None,
    }
}

/// The view of an optional text slot.
pub open spec fn opt_text_view(o: Option<TextRenderable>) -> Option<TextV> {
    match o {
        Option::Some(t) => Option::Some(t@),
        Option::None => Option::None,
    }
}

/// The view of an optional chat slot.
pub open spec fn opt_chat_view(o: Option<ChatRenderable>) -> Option<ChatV> {
    match o {
        Option::Some(t) => Option::Some(t@),
        Option::None => Option::None,
    }
}

/// The view of an optional image slot.
pub open spec fn opt_graphic_view(o: Option<GraphicRenderable>) -> Option<GraphicV> {
    match o {
        Option::Some(t) => Option::Some(t@),
        Option::None => Option::None,
    }
}

/// The view of an optional animation slot.
pub open spec fn opt_anim_view(o: Option<GraphicAnimatable>) -> Option<AnimV> {
    match o {
        Option::Some(t) => Option::Some(t@),
        Option::None => Option::None,
    }
}

/// Substituting the owner's marker turns a record into its wire form.
pub open spec fn with_owner_marker(r: RecV, om: u64) -> RecV {
    match r.carried_by {
        Option::Some(c) => RecV { carried_by: Option::Some(CarriedBy { owner: om }), ..r },
        Option::None => r,
    }
}

/// Push the token form of one record, with the carry owner already
/// resolved to its marker.

fn push_fps_toks(out: &mut Vec<u64>, r: &EntityRecord)
    ensures
        final(out)@ == old(out)@ + fps_toks(r@.fps_tracker),
{
    let ghost base = out@;
    match &r.fps_tracker {
        Option::Some(f) => {
            out.push(1);
            out.push(f.for_time);
            out.push(f.seen_frames as u64);
            out.push(f.prev_fps as u64);
        },
        Option::None => {
            out.push(0);
        },
    }
    proof {
        assert(out@ =~= base + fps_toks(r@.fps_tracker));
    }
}

fn push_loc_toks(out: &mut Vec<u64>, r: &EntityRecord)
    ensures
        final(out)@ == old(out)@ + loc_toks(r@.location),
{
    let ghost base = out@;
    match &r.location {
        Option::Some(l) => {
            out.push(1);
            out.push((l.x as i64 + 0x80000000) as u64);
            out.push((l.y as i64 + 0x80000000) as u64);
        },
        Option::None => {
            out.push(0);
        },
    }
    proof {
        assert(out@ =~= base + loc_toks(r@.location));
    }
}

fn push_player_toks(out: &mut Vec<u64>, r: &EntityRecord)
    ensures
        final(out)@ == old(out)@ + player_toks(r@.player_info),
{
    let ghost base = out@;
    match &r.player_info {
        Option::Some(p) => {
            out.push(1);
            push_str_toks(out, p.id.as_str());
            proof {
                assert(out@ =~= base + (seq![1u64] + str_toks(p.id@)));
            }
        },
        Option::None => {
            out.push(0);
            proof {
                assert(out@ =~= base + player_toks(r@.player_info));
            }
        },
    }
}

fn push_rend_toks(out: &mut Vec<u64>, r: &EntityRecord)
    ensures
        final(out)@ == old(out)@ + rend_toks(r@.renderable),
{
    let ghost base = out@;
    match &r.renderable {
        Option::Some(d) => {
            out.push(1);
            out.push((d.render_order as i64 + 0x80000000) as u64);
        },
        Option::None => {
            out.push(0);
        },
    }
    proof {
        assert(out@ =~= base + rend_toks(r@.renderable));
    }
}

fn push_text_toks(out: &mut Vec<u64>, r: &EntityRecord)
    ensures
        final(out)@ == old(out)@ + text_toks(r@.text_renderable),
{
    let ghost base = out@;
    match &r.text_renderable {
        Option::Some(t) => {
            out.push(1);
            push_str_toks(out, t.text.as_str());
            out.push((t.font_size as i64 + 0x80000000) as u64);
            out.push((t.offset_x as i64 + 0x80000000) as u64);
            out.push((t.offset_y as i64 + 0x80000000) as u64);
            proof {
                assert(out@ =~= base + (seq![1u64] + str_toks(t.text@) + seq![
                    i32_tok(t.font_size),
                    i32_tok(t.offset_x),
                    i32_tok(t.offset_y),
                ]));
            }
        },
        Option::None => {
            out.push(0);
            proof {
                assert(out@ =~= base + text_toks(r@.text_renderable));
            }
        },
    }
}

fn push_chat_toks(out: &mut Vec<u64>, r: &EntityRecord)
    ensures
        final(out)@ == old(out)@ + chat_toks(r@.chat_renderable),
{
    let ghost base = out@;
    match &r.chat_renderable {
        Option::Some(t) => {
            out.push(1);
            push_str_toks(out, t.text.as_str());
            out.push((t.offset_x as i64 + 0x80000000) as u64);
            out.push((t.offset_y as i64 + 0x80000000) as u64);
            proof {
                assert(out@ =~= base + (seq![1u64] + str_toks(t.text@) + seq![
                    i32_tok(t.offset_x),
                    i32_tok(t.offset_y),
                ]));
            }
        },
        Option::None => {
            out.push(0);
            proof {
                assert(out@ =~= base + chat_toks(r@.chat_renderable));
            }
        },
    }
}

fn push_graphic_toks(out: &mut Vec<u64>, r: &EntityRecord)
    ensures
        final(out)@ == old(out)@ + graphic_toks(r@.graphic_renderable),
{
    let ghost base = out@;
    match &r.graphic_renderable {
        Option::Some(t) => {
            out.push(1);
            push_str_toks(out, t.image_name.as_str());
            out.push((t.offset_x as i64 + 0x80000000) as u64);
            out.push((t.offset_y as i64 + 0x80000000) as u64);
            proof {
                assert(out@ =~= base + (seq![1u64] + str_toks(t.image_name@) + seq![
                    i32_tok(t.offset_x),
                    i32_tok(t.offset_y),
                ]));
            }
        },
        Option::None => {
            out.push(0);
            proof {
                assert(out@ =~= base + graphic_toks(r@.graphic_renderable));
            }
        },
    }
}

fn push_anim_toks(out: &mut Vec<u64>, r: &EntityRecord)
    ensures
        final(out)@ == old(out)@ + anim_toks(r@.graphic_animatable),
{
    let ghost base = out@;
    match &r.graphic_animatable {
        Option::Some(a) => {
            out.push(1);
            out.push(a.image_names.len() as u64);
            push_strs_toks(out, &a.image_names);
            out.push((a.tick_interval as i32 + 0x8000) as u64);
            out.push((a.ticks as i32 + 0x8000) as u64);
            proof {
                let av = r@.graphic_animatable->Some_0;
                assert(av.image_names == Seq::new(
                    a.image_names@.len(),
                    |i: int| a.image_names@[i]@,
                ));
                assert(out@ =~= base + (seq![1u64, av.image_names.len() as u64] + strs_toks(
                    av.image_names,
                ) + seq![i16_tok(av.tick_interval), i16_tok(av.ticks)]));
            }
        },
        Option::None => {
            out.push(0);
            proof {
                assert(out@ =~= base + anim_toks(r@.graphic_animatable));
            }
        },
    }
}

fn push_move_toks(out: &mut Vec<u64>, r: &EntityRecord)
    ensures
        final(out)@ == old(out)@ + move_toks(r@.wants_to_move_to),
{
    let ghost base = out@;
    match &r.wants_to_move_to {
        Option::Some(m) => {
            out.push(1);
            out.push((m.x as i64 + 0x80000000) as u64);
            out.push((m.y as i64 + 0x80000000) as u64);
            out.push((m.speed as i32 + 0x8000) as u64);
        },
        Option::None => {
            out.push(0);
        },
    }
    proof {
        assert(out@ =~= base + move_toks(r@.wants_to_move_to));
    }
}

fn push_disap_toks(out: &mut Vec<u64>, r: &EntityRecord)
    ensures
        final(out)@ == old(out)@ + disap_toks(r@.disappearing),
{
    let ghost base = out@;
    match &r.disappearing {
        Option::Some(d) => {
            out.push(1);
            out.push(d.total_ticks as u64);
            out.push(d.ticks_left as u64);
        },
        Option::None => {
            out.push(0);
        },
    }
    proof {
        assert(out@ =~= base + disap_toks(r@.disappearing));
    }
}

fn push_carried_toks(out: &mut Vec<u64>, r: &EntityRecord, owner_marker: u64)
    ensures
        final(out)@ == old(out)@ + carried_toks(
            with_owner_marker(r@, owner_marker).carried_by,
        ),
{
    let ghost base = out@;
    match &r.carried_by {
        Option::Some(_) => {
            out.push(1);
            out.push(owner_marker);
        },
        Option::None => {
            out.push(0);
        },
    }
    proof {
        assert(out@ =~= base + carried_toks(with_owner_marker(r@, owner_marker).carried_by));
    }
}

fn push_crab_toks(out: &mut Vec<u64>, r: &EntityRecord)
    ensures
        final(out)@ == old(out)@ + crab_toks(r@.crab_ai),
{
    let ghost base = out@;
    match &r.crab_ai {
        Option::Some(c) => {
            out.push(1);
            let st: u64 = match c.crab_state {
                CrabAIState::WalkingRight => 0,
                CrabAIState::SleepingRight => 1,
                CrabAIState::WalkingLeft => 2,
                CrabAIState::SleepingLeft => 3,
            };
            out.push(st);
            out.push((c.tick_interval as i32 + 0x8000) as u64);
            out.push((c.ticks as i32 + 0x8000) as u64);
            out.push((c.walk_speed as i32 + 0x8000) as u64);
            out.push((c.sleep_duration as i32 + 0x8000) as u64);
        },
        Option::None => {
            out.push(0);
        },
    }
    proof {
        assert(out@ =~= base + crab_toks(r@.crab_ai));
    }
}

fn push_flags_toks(out: &mut Vec<u64>, r: &EntityRecord)
    ensures
        final(out)@ == old(out)@ + flags_toks(r@.wants_to_be_picked_up, r@.wants_to_stab),
{
    let ghost base = out@;
    if r.wants_to_be_picked_up.is_some() {
        out.push(1);
    } else {
        out.push(0);
    }
    if r.wants_to_stab.is_some() {
        out.push(1);
    } else {
        out.push(0);
    }
    proof {
        assert(out@ =~= base + flags_toks(r@.wants_to_be_picked_up, r@.wants_to_stab));
    }
}

/// Push the token form of one record, with the carry owner already
/// resolved to its marker.
fn push_rec_toks(out: &mut Vec<u64>, r: &EntityRecord, owner_marker: u64)
    ensures
        final(out)@ == old(out)@ + rec_toks(with_owner_marker(r@, owner_marker)),
{
    let ghost base = out@;
    let ghost wr = with_owner_marker(r@, owner_marker);
    out.push(r.marker);
    proof {
        assert(out@ =~= base + seq![wr.marker]);
    }
    push_fps_toks(out, r);
    proof {
        vstd::seq_lib::lemma_concat_associative(base, seq![wr.marker], fps_toks(wr.fps_tracker));
    }
    let ghost p1 = seq![wr.marker] + fps_toks(wr.fps_tracker);
    push_loc_toks(out, r);
    proof {
        vstd::seq_lib::lemma_concat_associative(base, p1, loc_toks(wr.location));
    }
    let ghost p2 = p1 + loc_toks(wr.location);
    push_player_toks(out, r);
    proof {
        vstd::seq_lib::lemma_concat_associative(base, p2, player_toks(wr.player_info));
    }
    let ghost p3 = p2 + player_toks(wr.player_info);
    push_rend_toks(out, r);
    proof {
        vstd::seq_lib::lemma_concat_associative(base, p3, rend_toks(wr.renderable));
    }
    let ghost p4 = p3 + rend_toks(wr.renderable);
    push_text_toks(out, r);
    proof {
        vstd::seq_lib::lemma_concat_associative(base, p4, text_toks(wr.text_renderable));
    }
    let ghost p5 = p4 + text_toks(wr.text_renderable);
    push_chat_toks(out, r);
    proof {
        vstd::seq_lib::lemma_concat_associative(base, p5, chat_toks(wr.chat_renderable));
    }
    let ghost p6 = p5 + chat_toks(wr.chat_renderable);
    push_graphic_toks(out, r);
    proof {
        vstd::seq_lib::lemma_concat_associative(base, p6, graphic_toks(wr.graphic_renderable));
    }
    let ghost p7 = p6 + graphic_toks(wr.graphic_renderable);
    push_anim_toks(out, r);
    proof {
        vstd::seq_lib::lemma_concat_associative(base, p7, anim_toks(wr.graphic_animatable));
    }
    let ghost p8 = p7 + anim_toks(wr.graphic_animatable);
    push_move_toks(out, r);
    proof {
        vstd::seq_lib::lemma_concat_associative(base, p8, move_toks(wr.wants_to_move_to));
    }
    let ghost p9 = p8 + move_toks(wr.wants_to_move_to);
    push_disap_toks(out, r);
    proof {
        vstd::seq_lib::lemma_concat_associative(base, p9, disap_toks(wr.disappearing));
    }
    let ghost p10 = p9 + disap_toks(wr.disappearing);
    push_carried_toks(out, r, owner_marker);
    proof {
        vstd::seq_lib::lemma_concat_associative(base, p10, carried_toks(wr.carried_by));
    }
    let ghost p11 = p10 + carried_toks(wr.carried_by);
    push_crab_toks(out, r);
    proof {
        vstd::seq_lib::lemma_concat_associative(base, p11, crab_toks(wr.crab_ai));
    }
    let ghost p12 = p11 + crab_toks(wr.crab_ai);
    push_flags_toks(out, r);
    proof {
        vstd::seq_lib::lemma_concat_associative(
            base,
            p12,
            flags_toks(wr.wants_to_be_picked_up, wr.wants_to_stab),
        );
        assert(out@ == base + (p12 + flags_toks(wr.wants_to_be_picked_up, wr.wants_to_stab)));
        assert(p12 + flags_toks(wr.wants_to_be_picked_up, wr.wants_to_stab) == rec_toks(wr));
    }
}

} // verus!

verus! {

/// Every record of the world as tokens, owners resolved to markers.
pub fn encode_world_tokens(w: &World) -> (r: Vec<u64>)
    requires
        w.wf(),
        carries_ok(w@),
    ensures
        r@ == world_toks(wire_of(w@)),
{
    let ghost wv = w@;
    let mut out: Vec<u64> = Vec::new();
    out.push(w.ents.len() as u64);
    proof {
        assert(wire_of(wv).take(0) =~= Seq::<RecV>::empty());
        assert(out@ =~= seq![wv.len() as u64] + recs_toks(wire_of(wv).take(0)));
    }
    let mut i: usize = 0;
    while i < w.ents.len()
        invariant
            w.wf(),
            carries_ok(wv),
            wv == w@,
            i <= wv.len(),
            wv.len() == w.ents@.len(),
            out@ == seq![wv.len() as u64] + recs_toks(wire_of(wv).take(i as int)),
        decreases wv.len() - i,
    {
        let cb = w.ents[i].carried_by;
        let owner_marker: u64 = match cb {
            Option::Some(c) => {
                proof {
                    assert(wv[i as int].carried_by == Option::Some(c));
                    assert(has_id(wv, c.owner));
                    lemma_idx_of(wv, c.owner);
                }
                let k = match w.index_of(c.owner) {
                    Option::Some(k) => k,
                    Option::None => 0,
                };
                w.ents[k].marker
            },
            Option::None => 0,
        };
        let ghost base = out@;
        push_rec_toks(&mut out, &w.ents[i], owner_marker);
        proof {
            assert(with_owner_marker(wv[i as int], owner_marker) == wire_rec(wv[i as int], wv));
            assert(wire_of(wv).take(i as int).push(wire_of(wv)[i as int]) =~= wire_of(wv).take(
                i as int + 1,
            ));
            lemma_recs_toks_snoc(wire_of(wv).take(i as int), wire_of(wv)[i as int]);
            vstd::seq_lib::lemma_concat_associative(
                seq![wv.len() as u64],
                recs_toks(wire_of(wv).take(i as int)),
                rec_toks(wire_of(wv)[i as int]),
            );
        }
        i = i + 1;
    }
    proof {
        assert(wire_of(wv).take(wv.len() as int) =~= wire_of(wv));
    }
    out
}

/// Convert the entity-component world into its transmissible text
/// form.
pub fn serialize_ecs(ecs: &World) -> (r: String)
    requires
        ecs.wf(),
        carries_ok(ecs@),
    ensures
        r@ == enc_tokens(world_toks(wire_of(ecs@))),
{
    let ts = encode_world_tokens(ecs);
    tokens_to_text(&ts)
}

} // verus!

verus! {

/// Read an `i32` token, refusing values outside the world's
/// coordinate bound when `bounded` is set.
fn read_i32_tok(v: u64, bounded: bool) -> (r: Option<i32>)
    ensures
        r matches Option::Some(x) ==> v == i32_tok(x) && (bounded
            ==> -crate::world::COORD_BOUND <= x <= crate::world::COORD_BOUND),
        !bounded ==> ((r is Some) <==> v < 0x100000000),
        forall|x: i32| v == i32_tok(x) && !bounded ==> r == Option::Some(x),
{
    if v >= 0x100000000u64 {
        return Option::None;
    }
    let x = (v as i64 - 0x80000000i64) as i32;
    if bounded {
        if x < -crate::world::COORD_BOUND || x > crate::world::COORD_BOUND {
            return Option::None;
        }
    }
    Option::Some(x)
}

/// Read an `i16` token.
fn read_i16_tok(v: u64) -> (r: Option<i16>)
    ensures
        r matches Option::Some(x) ==> v == i16_tok(x),
        (r is Some) <==> v < 0x10000,
        forall|x: i16| v == i16_tok(x) ==> r == Option::Some(x),
{
    if v >= 0x10000u64 {
        return Option::None;
    }
    let x = (v as i32 - 0x8000i32) as i16;
    Option::Some(x)
}

/// Read one string out of the token stream: its length, then one
/// character per token; the consumed tokens are exactly the string's
/// token form.
fn read_str_toks(ts: &Vec<u64>, pos: usize) -> (r: Option<(String, usize)>)
    requires
        pos <= ts@.len(),
    ensures
        r matches Option::Some(sp) ==> pos < sp.1 <= ts@.len() && ts@.subrange(
            pos as int,
            sp.1 as int,
        ) == str_toks(sp.0@),
        r is None ==> (forall|t: Seq<char>|
            !(pos + str_toks(t).len() <= ts@.len() && ts@.subrange(
                pos as int,
                pos + str_toks(t).len(),
            ) == #[trigger] str_toks(t))),
{
    proof {
        assert forall|t: Seq<char>| (#[trigger] str_toks(t)).len() == 1 + t.len() by {}
    }
    if pos >= ts.len() {
        proof {
            assert forall|t: Seq<char>|
                !(pos + str_toks(t).len() <= ts@.len() && ts@.subrange(
                    pos as int,
                    pos + str_toks(t).len(),
                ) == #[trigger] str_toks(t)) by {}
        }
        return Option::None;
    }
    let n64 = ts[pos];
    if n64 > (usize::MAX as u64) {
        proof {
            assert forall|t: Seq<char>|
                !(pos + str_toks(t).len() <= ts@.len() && ts@.subrange(
                    pos as int,
                    pos + str_toks(t).len(),
                ) == #[trigger] str_toks(t)) by {
                if pos + str_toks(t).len() <= ts@.len() && ts@.subrange(
                    pos as int,
                    pos + str_toks(t).len(),
                ) == str_toks(t) {
                    assert(ts@.subrange(pos as int, pos + str_toks(t).len())[0] == ts@[pos as int]);
                    assert(str_toks(t)[0] == t.len() as u64);
                }
            }
        }
        return Option::None;
    }
    let n = n64 as usize;
    if n > ts.len() - pos - 1 {
        proof {
            assert forall|t: Seq<char>|
                !(pos + str_toks(t).len() <= ts@.len() && ts@.subrange(
                    pos as int,
                    pos + str_toks(t).len(),
                ) == #[trigger] str_toks(t)) by {
                if pos + str_toks(t).len() <= ts@.len() && ts@.subrange(
                    pos as int,
                    pos + str_toks(t).len(),
                ) == str_toks(t) {
                    assert(ts@.subrange(pos as int, pos + str_toks(t).len())[0] == ts@[pos as int]);
                    assert(str_toks(t)[0] == t.len() as u64);
                    assert(ts@.len() <= usize::MAX);
                    assert(1 + t.len() <= ts@.len());
                    assert(t.len() < 0x10000000000000000);
                    assert(t.len() == n as nat);
                }
            }
        }
        return Option::None;
    }
    let mut cs: Vec<char> = Vec::new();
    let mut k: usize = 0;
    let total = ts.len();
    proof {
        assert(pos + 1 + n <= ts@.len());
    }
    while k < n
        invariant
            total == ts@.len(),
            pos < total,
            pos + 1 + n <= total,
            ts@[pos as int] == n as u64,
            n <= usize::MAX,
            k <= n,
            cs@.len() == k,
            forall|j: int| 0 <= j < k ==> (#[trigger] cs@[j]) as u64 == ts@[pos + 1 + j],
        decreases n - k,
    {
        let idx = pos + 1 + k;
        let v = ts[idx];
        proof {
            assert forall|t: Seq<char>|
                (pos + str_toks(t).len() <= ts@.len() && ts@.subrange(
                    pos as int,
                    pos + str_toks(t).len(),
                ) == #[trigger] str_toks(t)) implies ({
                let code = t[k as int] as u64;
                &&& t.len() == n as nat
                &&& v == code
                &&& code < 0xD800 || (0xE000 <= code && code < 0x110000)
            }) by {
                assert(ts@.subrange(pos as int, pos + str_toks(t).len())[0] == ts@[pos as int]);
                assert(str_toks(t)[0] == t.len() as u64);
                assert(ts@.len() <= usize::MAX);
                assert(1 + t.len() <= ts@.len());
                assert(t.len() < 0x10000000000000000);
                assert(t.len() as u64 == n as u64);
                assert(t.len() == n as nat);
                assert(k < t.len());
                assert(ts@.subrange(pos as int, pos + str_toks(t).len())[1 + k] == ts@[idx as int]);
                assert(str_toks(t)[1 + k] == t.map_values(|c: char| c as u64)[k as int]);
                let ch = t[k as int];
                lemma_char_range(ch);
                assert(v == ch as u64);
                assert((ch as u64) < 0xD800 || ((ch as u64) >= 0xE000 && (ch as u64) < 0x110000));
            }
        }
        if v > (u32::MAX as u64) {
            return Option::None;
        }
        match char_from_u32(v as u32) {
            Option::Some(c) => {
                cs.push(c);
            },
            Option::None => {
                return Option::None;
            },
        }
        k = k + 1;
    }
    let out = chars_string(&cs);
    proof {
        assert(ts@.subrange(pos as int, (pos + 1 + n) as int) =~= str_toks(out@));
    }
    Option::Some((out, pos + 1 + n))
}

fn parse_fps_slot(ts: &Vec<u64>, pos: usize) -> (r: Option<(Option<FPSTracker>, usize)>)
    requires
        pos <= ts@.len(),
    ensures
        r matches Option::Some(op) ==> pos < op.1 <= ts@.len() && ts@.subrange(
            pos as int,
            op.1 as int,
        ) == fps_toks(op.0),
        forall|v: Option<FPSTracker>, e: int|
            #![trigger fps_toks(v), ts@.subrange(pos as int, e)]
            (pos + fps_toks(v).len() == e && e <= ts@.len() && ts@.subrange(pos as int, e)
                == fps_toks(v)) ==> (r matches Option::Some(op) && op.0 == v && op.1 == e),
{
    proof {
        assert forall|v: Option<FPSTracker>, e: int|
            #![trigger fps_toks(v), ts@.subrange(pos as int, e)]
            (pos + fps_toks(v).len() == e && e <= ts@.len() && ts@.subrange(pos as int, e)
                == fps_toks(v)) implies (match v {
            Option::None => e == pos + 1 && ts@[pos as int] == 0,
            Option::Some(f) => e == pos + 4 && ts@[pos as int] == 1 && ts@[pos as int + 1]
                == f.for_time && ts@[pos as int + 2] == f.seen_frames as u64 && ts@[pos as int
                + 3] == f.prev_fps as u64,
        }) by {
            let tk = fps_toks(v);
            assert(ts@.subrange(pos as int, e)[0] == ts@[pos as int]);
            if v is Some {
                assert(ts@.subrange(pos as int, e)[1] == ts@[pos as int + 1]);
                assert(ts@.subrange(pos as int, e)[2] == ts@[pos as int + 2]);
                assert(ts@.subrange(pos as int, e)[3] == ts@[pos as int + 3]);
            }
        }
    }
    if pos >= ts.len() {
        return Option::None;
    }
    let flag = ts[pos];
    let p = pos + 1;
    if flag == 0 {
        proof {
            assert(ts@.subrange(pos as int, p as int) =~= fps_toks(Option::None));
        }
        return Option::Some((Option::None, p));
    }
    if flag != 1 {
        return Option::None;
    }
    if ts.len() - p < 3 {
        return Option::None;
    }
    let sf = ts[p + 1];
    let pf = ts[p + 2];
    if sf > (u16::MAX as u64) || pf > (u16::MAX as u64) {
        return Option::None;
    }
    let out = Option::Some(
        FPSTracker { for_time: ts[p], seen_frames: sf as u16, prev_fps: pf as u16 },
    );
    proof {
        assert(ts@.subrange(pos as int, (p + 3) as int) =~= fps_toks(out));
    }
    Option::Some((out, p + 3))
}

fn parse_loc_slot(ts: &Vec<u64>, pos: usize) -> (r: Option<(Option<Location>, usize)>)
    requires
        pos <= ts@.len(),
    ensures
        r matches Option::Some(op) ==> pos < op.1 <= ts@.len() && ts@.subrange(
            pos as int,
            op.1 as int,
        ) == loc_toks(op.0),
        forall|v: Option<Location>, e: int|
            #![trigger loc_toks(v), ts@.subrange(pos as int, e)]
            (pos + loc_toks(v).len() == e && e <= ts@.len() && ts@.subrange(pos as int, e)
                == loc_toks(v)) ==> (r matches Option::Some(op) && op.0 == v && op.1 == e),
{
    proof {
        assert forall|v: Option<Location>, e: int|
            #![trigger loc_toks(v), ts@.subrange(pos as int, e)]
            (pos + loc_toks(v).len() == e && e <= ts@.len() && ts@.subrange(pos as int, e)
                == loc_toks(v)) implies (match v {
            Option::None => e == pos + 1 && ts@[pos as int] == 0,
            Option::Some(l) => e == pos + 3 && ts@[pos as int] == 1 && ts@[pos as int + 1]
                == i32_tok(l.x) && ts@[pos as int + 2] == i32_tok(l.y),
        }) by {
            assert(ts@.subrange(pos as int, e)[0] == ts@[pos as int]);
            if v is Some {
                assert(ts@.subrange(pos as int, e)[1] == ts@[pos as int + 1]);
                assert(ts@.subrange(pos as int, e)[2] == ts@[pos as int + 2]);
            }
        }
    }
    if pos >= ts.len() {
        return Option::None;
    }
    let flag = ts[pos];
    let p = pos + 1;
    if flag == 0 {
        proof {
            assert(ts@.subrange(pos as int, p as int).len() == 1);
        }
        return Option::Some((Option::None, p));
    }
    if flag != 1 {
        return Option::None;
    }
    if ts.len() - p < 2 {
        return Option::None;
    }
    let x = match read_i32_tok(ts[p], false) {
        Option::Some(x) => x,
        Option::None => {
            return Option::None;
        },
    };
    let y = match read_i32_tok(ts[p + 1], false) {
        Option::Some(y) => y,
        Option::None => {
            return Option::None;
        },
    };
    proof {
        assert(ts@.subrange(pos as int, (p + 2) as int) =~= loc_toks(
            Option::Some(Location { x, y }),
        ));
    }
    Option::Some((Option::Some(Location { x, y }), p + 2))
}

fn parse_player_slot(ts: &Vec<u64>, pos: usize) -> (r: Option<(Option<PlayerInfo>, usize)>)
    requires
        pos <= ts@.len(),
    ensures
        r matches Option::Some(op) ==> pos < op.1 <= ts@.len() && ts@.subrange(
            pos as int,
            op.1 as int,
        ) == player_toks(opt_player_view(op.0)),
        forall|v: Option<Seq<char>>, e: int|
            #![trigger player_toks(v), ts@.subrange(pos as int, e)]
            (pos + player_toks(v).len() == e && e <= ts@.len() && ts@.subrange(pos as int, e)
                == player_toks(v)) ==> (r matches Option::Some(op) && opt_player_view(op.0) == v
                && op.1 == e),
{
    proof {
        assert forall|v: Option<Seq<char>>, e: int|
            #![trigger player_toks(v), ts@.subrange(pos as int, e)]
            (pos + player_toks(v).len() == e && e <= ts@.len() && ts@.subrange(pos as int, e)
                == player_toks(v)) implies (match v {
            Option::None => e == pos + 1 && ts@[pos as int] == 0,
            Option::Some(t) => ts@[pos as int] == 1 && pos + 1 + str_toks(t).len() == e
                && ts@.subrange(pos as int + 1, e) == str_toks(t),
        }) by {
            assert(ts@.subrange(pos as int, e)[0] == ts@[pos as int]);
            if v is Some {
                let t = v->Some_0;
                assert(player_toks(v) == seq![1u64] + str_toks(t));
                lemma_tok_split(ts@, pos as int, seq![1u64], str_toks(t));
            }
        }
    }
    if pos >= ts.len() {
        return Option::None;
    }
    let flag = ts[pos];
    let p = pos + 1;
    if flag == 0 {
        proof {
            assert(ts@.subrange(pos as int, p as int).len() == 1);
        }
        return Option::Some((Option::None, p));
    }
    if flag != 1 {
        return Option::None;
    }
    match read_str_toks(ts, p) {
        Option::Some((id, p2)) => {
            proof {
                assert(ts@.subrange(pos as int, p2 as int) =~= player_toks(
                    opt_player_view(Option::Some(PlayerInfo { id: id })),
                ));
                assert forall|v: Option<Seq<char>>, e: int|
                    #![trigger player_toks(v), ts@.subrange(pos as int, e)]
                    (pos + player_toks(v).len() == e && e <= ts@.len() && ts@.subrange(
                        pos as int,
                        e,
                    ) == player_toks(v)) implies (opt_player_view(
                    Option::Some(PlayerInfo { id: id }),
                ) == v && p2 == e) by {
                    if v is Some {
                        let t = v->Some_0;
                        lemma_str_toks_det(ts@, pos as int + 1, id@, t);
                    }
                }
            }
            Option::Some((Option::Some(PlayerInfo { id }), p2))
        },
        Option::None => Option::None,
    }
}

fn parse_rend_slot(ts: &Vec<u64>, pos: usize) -> (r: Option<(Option<Renderable>, usize)>)
    requires
        pos <= ts@.len(),
    ensures
        r matches Option::Some(op) ==> pos < op.1 <= ts@.len() && ts@.subrange(
            pos as int,
            op.1 as int,
        ) == rend_toks(op.0),
        forall|v: Option<Renderable>, e: int|
            #![trigger rend_toks(v), ts@.subrange(pos as int, e)]
            (pos + rend_toks(v).len() == e && e <= ts@.len() && ts@.subrange(pos as int, e)
                == rend_toks(v)) ==> (r matches Option::Some(op) && op.0 == v && op.1 == e),
{
    proof {
        assert forall|v: Option<Renderable>, e: int|
            #![trigger rend_toks(v), ts@.subrange(pos as int, e)]
            (pos + rend_toks(v).len() == e && e <= ts@.len() && ts@.subrange(pos as int, e)
                == rend_toks(v)) implies (match v {
            Option::None => e == pos + 1 && ts@[pos as int] == 0,
            Option::Some(d) => e == pos + 2 && ts@[pos as int] == 1 && ts@[pos as int + 1]
                == i32_tok(d.render_order),
        }) by {
            assert(ts@.subrange(pos as int, e)[0] == ts@[pos as int]);
            if v is Some {
                assert(ts@.subrange(pos as int, e)[1] == ts@[pos as int + 1]);
            }
        }
    }
    if pos >= ts.len() {
        return Option::None;
    }
    let flag = ts[pos];
    let p = pos + 1;
    if flag == 0 {
        proof {
            assert(ts@.subrange(pos as int, p as int).len() == 1);
        }
        return Option::Some((Option::None, p));
    }
    if flag != 1 {
        return Option::None;
    }
    if ts.len() - p < 1 {
        return Option::None;
    }
    match read_i32_tok(ts[p], false) {
        Option::Some(v) => {
            proof {
                assert(ts@.subrange(pos as int, (p + 1) as int) =~= rend_toks(
                    Option::Some(Renderable { render_order: v }),
                ));
            }
            Option::Some((Option::Some(Renderable { render_order: v }), p + 1))
        },
        Option::None => Option::None,
    }
}

fn parse_text_slot(ts: &Vec<u64>, pos: usize) -> (r: Option<(Option<TextRenderable>, usize)>)
    requires
        pos <= ts@.len(),
    ensures
        r matches Option::Some(op) ==> pos < op.1 <= ts@.len() && ts@.subrange(
            pos as int,
            op.1 as int,
        ) == text_toks(opt_text_view(op.0)),
        forall|v: Option<TextV>, e: int|
            #![trigger text_toks(v), ts@.subrange(pos as int, e)]
            (pos + text_toks(v).len() == e && e <= ts@.len() && ts@.subrange(pos as int, e)
                == text_toks(v)) ==> (r matches Option::Some(op) && opt_text_view(op.0) == v
                && op.1 == e),
{
    proof {
        assert forall|v: Option<TextV>, e: int|
            #![trigger text_toks(v), ts@.subrange(pos as int, e)]
            (pos + text_toks(v).len() == e && e <= ts@.len() && ts@.subrange(pos as int, e)
                == text_toks(v)) implies (match v {
            Option::None => e == pos + 1 && ts@[pos as int] == 0,
            Option::Some(tv) => ts@[pos as int] == 1 && pos + 1 + str_toks(tv.text).len() + 3
                == e && ts@.subrange(pos as int + 1, e - 3) == str_toks(tv.text) && ts@[e - 3]
                == i32_tok(tv.font_size) && ts@[e - 2] == i32_tok(tv.offset_x) && ts@[e - 1]
                == i32_tok(tv.offset_y),
        }) by {
            assert(ts@.subrange(pos as int, e)[0] == ts@[pos as int]);
            if v is Some {
                let tv = v->Some_0;
                let tail = seq![i32_tok(tv.font_size), i32_tok(tv.offset_x), i32_tok(tv.offset_y)];
                assert(text_toks(v) == seq![1u64] + str_toks(tv.text) + tail);
                lemma_tok_split(ts@, pos as int, seq![1u64] + str_toks(tv.text), tail);
                lemma_tok_split(ts@, pos as int, seq![1u64], str_toks(tv.text));
                assert(ts@.subrange(e - 3, e)[0] == ts@[e - 3]);
                assert(ts@.subrange(e - 3, e)[1] == ts@[e - 2]);
                assert(ts@.subrange(e - 3, e)[2] == ts@[e - 1]);
            }
        }
    }
    if pos >= ts.len() {
        return Option::None;
    }
    let flag = ts[pos];
    let p = pos + 1;
    if flag == 0 {
        proof {
            assert(ts@.subrange(pos as int, p as int).len() == 1);
        }
        return Option::Some((Option::None, p));
    }
    if flag != 1 {
        return Option::None;
    }
    let (t, p2) = match read_str_toks(ts, p) {
        Option::Some(sp) => sp,
        Option::None => {
            return Option::None;
        },
    };
    proof {
        assert forall|v: Option<TextV>, e: int|
            #![trigger text_toks(v), ts@.subrange(pos as int, e)]
            (pos + text_toks(v).len() == e && e <= ts@.len() && ts@.subrange(pos as int, e)
                == text_toks(v)) implies (v is Some && p2 + 3 == e && (v matches Option::Some(
                tv,
            ) ==> t@ == tv.text)) by {
            if v is Some {
                let tv = v->Some_0;
                lemma_str_toks_det(ts@, pos as int + 1, t@, tv.text);
            }
        }
    }
    if ts.len() - p2 < 3 {
        return Option::None;
    }
    let fs = match read_i32_tok(ts[p2], false) {
        Option::Some(v) => v,
        Option::None => {
            return Option::None;
        },
    };
    let ox = match read_i32_tok(ts[p2 + 1], false) {
        Option::Some(v) => v,
        Option::None => {
            return Option::None;
        },
    };
    let oy = match read_i32_tok(ts[p2 + 2], false) {
        Option::Some(v) => v,
        Option::None => {
            return Option::None;
        },
    };
    let out = TextRenderable { text: t, font_size: fs, offset_x: ox, offset_y: oy };
    proof {
        assert(ts@.subrange(pos as int, (p2 + 3) as int) =~= text_toks(
            opt_text_view(Option::Some(out)),
        ));
        assert forall|v: Option<TextV>, e: int|
            #![trigger text_toks(v), ts@.subrange(pos as int, e)]
            (pos + text_toks(v).len() == e && e <= ts@.len() && ts@.subrange(pos as int, e)
                == text_toks(v)) implies (opt_text_view(Option::Some(out)) == v && p2 + 3
            == e) by {
            if v is Some {
                let tv = v->Some_0;
                lemma_str_toks_det(ts@, pos as int + 1, out.text@, tv.text);
            }
        }
    }
    Option::Some((Option::Some(out), p2 + 3))
}

fn parse_chat_slot(ts: &Vec<u64>, pos: usize) -> (r: Option<(Option<ChatRenderable>, usize)>)
    requires
        pos <= ts@.len(),
    ensures
        r matches Option::Some(op) ==> pos < op.1 <= ts@.len() && ts@.subrange(
            pos as int,
            op.1 as int,
        ) == chat_toks(opt_chat_view(op.0)),
        forall|v: Option<ChatV>, e: int|
            #![trigger chat_toks(v), ts@.subrange(pos as int, e)]
            (pos + chat_toks(v).len() == e && e <= ts@.len() && ts@.subrange(pos as int, e)
                == chat_toks(v)) ==> (r matches Option::Some(op) && opt_chat_view(op.0) == v
                && op.1 == e),
{
    proof {
        assert forall|v: Option<ChatV>, e: int|
            #![trigger chat_toks(v), ts@.subrange(pos as int, e)]
            (pos + chat_toks(v).len() == e && e <= ts@.len() && ts@.subrange(pos as int, e)
                == chat_toks(v)) implies (match v {
            Option::None => e == pos + 1 && ts@[pos as int] == 0,
            Option::Some(tv) => ts@[pos as int] == 1 && pos + 1 + str_toks(tv.text).len() + 2
                == e && ts@.subrange(pos as int + 1, e - 2) == str_toks(tv.text) && ts@[e - 2]
                == i32_tok(tv.offset_x) && ts@[e - 1] == i32_tok(tv.offset_y),
        }) by {
            assert(ts@.subrange(pos as int, e)[0] == ts@[pos as int]);
            if v is Some {
                let tv = v->Some_0;
                let tail = seq![i32_tok(tv.offset_x), i32_tok(tv.offset_y)];
                assert(chat_toks(v) == seq![1u64] + str_toks(tv.text) + tail);
                lemma_tok_split(ts@, pos as int, seq![1u64] + str_toks(tv.text), tail);
                lemma_tok_split(ts@, pos as int, seq![1u64], str_toks(tv.text));
                assert(ts@.subrange(e - 2, e)[0] == ts@[e - 2]);
                assert(ts@.subrange(e - 2, e)[1] == ts@[e - 1]);
            }
        }
    }
    if pos >= ts.len() {
        return Option::None;
    }
    let flag = ts[pos];
    let p = pos + 1;
    if flag == 0 {
        proof {
            assert(ts@.subrange(pos as int, p as int).len() == 1);
        }
        return Option::Some((Option::None, p));
    }
    if flag != 1 {
        return Option::None;
    }
    let (t, p2) = match read_str_toks(ts, p) {
        Option::Some(sp) => sp,
        Option::None => {
            return Option::None;
        },
    };
    proof {
        assert forall|v: Option<ChatV>, e: int|
            #![trigger chat_toks(v), ts@.subrange(pos as int, e)]
            (pos + chat_toks(v).len() == e && e <= ts@.len() && ts@.subrange(pos as int, e)
                == chat_toks(v)) implies (v is Some && p2 + 2 == e && (v matches Option::Some(
                tv,
            ) ==> t@ == tv.text)) by {
            if v is Some {
                let tv = v->Some_0;
                lemma_str_toks_det(ts@, pos as int + 1, t@, tv.text);
            }
        }
    }
    if ts.len() - p2 < 2 {
        return Option::None;
    }
    let ox = match read_i32_tok(ts[p2], false) {
        Option::Some(v) => v,
        Option::None => {
            return Option::None;
        },
    };
    let oy = match read_i32_tok(ts[p2 + 1], false) {
        Option::Some(v) => v,
        Option::None => {
            return Option::None;
        },
    };
    let out = ChatRenderable { text: t, offset_x: ox, offset_y: oy };
    proof {
        assert(ts@.subrange(pos as int, (p2 + 2) as int) =~= chat_toks(
            opt_chat_view(Option::Some(out)),
        ));
        assert forall|v: Option<ChatV>, e: int|
            #![trigger chat_toks(v), ts@.subrange(pos as int, e)]
            (pos + chat_toks(v).len() == e && e <= ts@.len() && ts@.subrange(pos as int, e)
                == chat_toks(v)) implies (opt_chat_view(Option::Some(out)) == v && p2 + 2
            == e) by {
            if v is Some {
                let tv = v->Some_0;
                lemma_str_toks_det(ts@, pos as int + 1, out.text@, tv.text);
            }
        }
    }
    Option::Some((Option::Some(out), p2 + 2))
}

fn parse_graphic_slot(ts: &Vec<u64>, pos: usize) -> (r: Option<
    (Option<GraphicRenderable>, usize),
>)
    requires
        pos <= ts@.len(),
    ensures
        r matches Option::Some(op) ==> pos < op.1 <= ts@.len() && ts@.subrange(
            pos as int,
            op.1 as int,
        ) == graphic_toks(opt_graphic_view(op.0)),
        forall|v: Option<GraphicV>, e: int|
            #![trigger graphic_toks(v), ts@.subrange(pos as int, e)]
            (pos + graphic_toks(v).len() == e && e <= ts@.len() && ts@.subrange(pos as int, e)
                == graphic_toks(v)) ==> (r matches Option::Some(op) && opt_graphic_view(op.0)
                == v && op.1 == e),
{
    proof {
        assert forall|v: Option<GraphicV>, e: int|
            #![trigger graphic_toks(v), ts@.subrange(pos as int, e)]
            (pos + graphic_toks(v).len() == e && e <= ts@.len() && ts@.subrange(pos as int, e)
                == graphic_toks(v)) implies (match v {
            Option::None => e == pos + 1 && ts@[pos as int] == 0,
            Option::Some(tv) => ts@[pos as int] == 1 && pos + 1 + str_toks(tv.image_name).len()
                + 2 == e && ts@.subrange(pos as int + 1, e - 2) == str_toks(tv.image_name)
                && ts@[e - 2] == i32_tok(tv.offset_x) && ts@[e - 1] == i32_tok(tv.offset_y),
        }) by {
            assert(ts@.subrange(pos as int, e)[0] == ts@[pos as int]);
            if v is Some {
                let tv = v->Some_0;
                let tail = seq![i32_tok(tv.offset_x), i32_tok(tv.offset_y)];
                assert(graphic_toks(v) == seq![1u64] + str_toks(tv.image_name) + tail);
                lemma_tok_split(ts@, pos as int, seq![1u64] + str_toks(tv.image_name), tail);
                lemma_tok_split(ts@, pos as int, seq![1u64], str_toks(tv.image_name));
                assert(ts@.subrange(e - 2, e)[0] == ts@[e - 2]);
                assert(ts@.subrange(e - 2, e)[1] == ts@[e - 1]);
            }
        }
    }
    if pos >= ts.len() {
        return Option::None;
    }
    let flag = ts[pos];
    let p = pos + 1;
    if flag == 0 {
        proof {
            assert(ts@.subrange(pos as int, p as int).len() == 1);
        }
        return Option::Some((Option::None, p));
    }
    if flag != 1 {
        return Option::None;
    }
    let (nm, p2) = match read_str_toks(ts, p) {
        Option::Some(sp) => sp,
        Option::None => {
            return Option::None;
        },
    };
    proof {
        assert forall|v: Option<GraphicV>, e: int|
            #![trigger graphic_toks(v), ts@.subrange(pos as int, e)]
            (pos + graphic_toks(v).len() == e && e <= ts@.len() && ts@.subrange(pos as int, e)
                == graphic_toks(v)) implies (v is Some && p2 + 2 == e && (v matches Option::Some(
                tv,
            ) ==> nm@ == tv.image_name)) by {
            if v is Some {
                let tv = v->Some_0;
                lemma_str_toks_det(ts@, pos as int + 1, nm@, tv.image_name);
            }
        }
    }
    if ts.len() - p2 < 2 {
        return Option::None;
    }
    let ox = match read_i32_tok(ts[p2], false) {
        Option::Some(v) => v,
        Option::None => {
            return Option::None;
        },
    };
    let oy = match read_i32_tok(ts[p2 + 1], false) {
        Option::Some(v) => v,
        Option::None => {
            return Option::None;
        },
    };
    let out = GraphicRenderable { image_name: nm, offset_x: ox, offset_y: oy };
    proof {
        assert(ts@.subrange(pos as int, (p2 + 2) as int) =~= graphic_toks(
            opt_graphic_view(Option::Some(out)),
        ));
        assert forall|v: Option<GraphicV>, e: int|
            #![trigger graphic_toks(v), ts@.subrange(pos as int, e)]
            (pos + graphic_toks(v).len() == e && e <= ts@.len() && ts@.subrange(pos as int, e)
                == graphic_toks(v)) implies (opt_graphic_view(Option::Some(out)) == v && p2 + 2
            == e) by {
            if v is Some {
                let tv = v->Some_0;
                lemma_str_toks_det(ts@, pos as int + 1, out.image_name@, tv.image_name);
            }
        }
    }
    Option::Some((Option::Some(out), p2 + 2))
}

fn parse_anim_slot(ts: &Vec<u64>, pos: usize) -> (r: Option<
    (Option<GraphicAnimatable>, usize),
>)
    requires
        pos <= ts@.len(),
    ensures
        r matches Option::Some(op) ==> pos < op.1 <= ts@.len() && ts@.subrange(
            pos as int,
            op.1 as int,
        ) == anim_toks(opt_anim_view(op.0)),
        forall|v: Option<AnimV>, e: int|
            #![trigger anim_toks(v), ts@.subrange(pos as int, e)]
            (pos + anim_toks(v).len() == e && e <= ts@.len() && ts@.subrange(pos as int, e)
                == anim_toks(v) && (v matches Option::Some(av) ==> av.image_names.len() >= 1))
                ==> (r matches Option::Some(op) && opt_anim_view(op.0) == v && op.1 == e),
{
    proof {
        assert forall|v: Option<AnimV>, e: int|
            #![trigger anim_toks(v), ts@.subrange(pos as int, e)]
            (pos + anim_toks(v).len() == e && e <= ts@.len() && ts@.subrange(pos as int, e)
                == anim_toks(v)) implies (match v {
            Option::None => e == pos + 1 && ts@[pos as int] == 0,
            Option::Some(av) => ts@[pos as int] == 1 && ts@[pos as int + 1]
                == av.image_names.len() as u64 && pos + 2 + strs_toks(av.image_names).len() + 2
                == e && ts@.subrange(pos as int + 2, e - 2) == strs_toks(av.image_names)
                && ts@[e - 2] == i16_tok(av.tick_interval) && ts@[e - 1] == i16_tok(av.ticks),
        }) by {
            assert(ts@.subrange(pos as int, e)[0] == ts@[pos as int]);
            if v is Some {
                let av = v->Some_0;
                let head = seq![1u64, av.image_names.len() as u64];
                let tail = seq![i16_tok(av.tick_interval), i16_tok(av.ticks)];
                assert(anim_toks(v) == head + strs_toks(av.image_names) + tail);
                lemma_tok_split(ts@, pos as int, head + strs_toks(av.image_names), tail);
                lemma_tok_split(ts@, pos as int, head, strs_toks(av.image_names));
                assert(ts@.subrange(pos as int, pos as int + 2)[0] == ts@[pos as int]);
                assert(ts@.subrange(pos as int, pos as int + 2)[1] == ts@[pos as int + 1]);
                assert(ts@.subrange(e - 2, e)[0] == ts@[e - 2]);
                assert(ts@.subrange(e - 2, e)[1] == ts@[e - 1]);
            }
        }
    }
    if pos >= ts.len() {
        return Option::None;
    }
    let flag = ts[pos];
    let start = pos + 1;
    if flag == 0 {
        proof {
            assert(ts@.subrange(pos as int, start as int) =~= anim_toks(Option::None));
        }
        return Option::Some((Option::None, start));
    }
    if flag != 1 {
        return Option::None;
    }
    if start >= ts.len() {
        return Option::None;
    }
    let cnt64 = ts[start];
    let body = start + 1;
    let mut p = body;
    proof {
        assert(ts@.len() <= usize::MAX);
    }
    if cnt64 == 0 || cnt64 > (usize::MAX as u64) {
        proof {
            assert forall|v: Option<AnimV>, e: int|
                #![trigger anim_toks(v), ts@.subrange(pos as int, e)]
                (pos + anim_toks(v).len() == e && e <= ts@.len() && ts@.subrange(pos as int, e)
                    == anim_toks(v) && (v matches Option::Some(av) ==> av.image_names.len()
                    >= 1)) implies false by {
                if v is Some {
                    let av = v->Some_0;
                    lemma_strs_toks_min_len(av.image_names);
                    assert(av.image_names.len() <= ts@.len());
                    assert(ts@.len() <= usize::MAX);
                }
            }
        }
        return Option::None;
    }
    let cnt = cnt64 as usize;
    let mut names: Vec<String> = Vec::new();
    let mut k: usize = 0;
    proof {
        assert(ts@.subrange(body as int, body as int) =~= strs_toks(
            Seq::new(names@.len(), |i: int| names@[i]@),
        ));
    }
    while k < cnt
        invariant
            k <= cnt,
            pos + 2 == body,
            body <= p,
            p <= ts@.len(),
            pos < ts@.len(),
            ts@.len() <= usize::MAX,
            ts@[pos as int] == 1,
            ts@[pos as int + 1] == cnt as u64,
            names@.len() == k,
            ts@.subrange(body as int, p as int) == strs_toks(
                Seq::new(names@.len(), |i: int| names@[i]@),
            ),
        decreases cnt - k,
    {
        let ghost nv = Seq::new(names@.len(), |i: int| names@[i]@);
        let step = read_str_toks(ts, p);
        proof {
            // on a stream that encodes an animation, the next name is
            // owed: the prefix read so far lines up with the list
            assert forall|v: Option<AnimV>, e: int|
                #![trigger anim_toks(v), ts@.subrange(pos as int, e)]
                (pos + anim_toks(v).len() == e && e <= ts@.len() && ts@.subrange(pos as int, e)
                    == anim_toks(v) && (v matches Option::Some(av) ==> av.image_names.len()
                    >= 1)) implies (step is Some) by {
                if v is None {
                    assert(ts@.subrange(pos as int, e)[0] == ts@[pos as int]);
                } else {
                    let av = v->Some_0;
                    let head = seq![1u64, av.image_names.len() as u64];
                    let tail = seq![i16_tok(av.tick_interval), i16_tok(av.ticks)];
                    assert(anim_toks(v) == head + strs_toks(av.image_names) + tail);
                    lemma_tok_split(ts@, pos as int, head + strs_toks(av.image_names), tail);
                    lemma_tok_split(ts@, pos as int, head, strs_toks(av.image_names));
                    assert(ts@.subrange(pos as int, pos as int + 2)[1] == ts@[pos as int + 1]);
                    lemma_strs_toks_min_len(av.image_names);
                    assert(av.image_names.len() < 0x10000000000000000);
                    assert(av.image_names.len() == cnt as nat);
                    lemma_strs_prefix(ts@, body as int, nv, av.image_names);
                    let rest = av.image_names.skip(k as int);
                    assert(rest.len() > 0);
                    assert(strs_toks(rest) == str_toks(rest[0]) + strs_toks(rest.drop_first()));
                    lemma_tok_split(ts@, p as int, str_toks(rest[0]), strs_toks(rest.drop_first()));
                    if step is None {
                        assert(!(p + str_toks(rest[0]).len() <= ts@.len() && ts@.subrange(
                            p as int,
                            p + str_toks(rest[0]).len(),
                        ) == str_toks(rest[0])));
                    }
                }
            }
        }
        let (nm, p2) = match step {
            Option::Some(sp) => sp,
            Option::None => {
                return Option::None;
            },
        };
        names.push(nm);
        proof {
            let now = Seq::new(names@.len(), |i: int| names@[i]@);
            assert(now =~= nv.push(nm@));
            lemma_strs_toks_snoc(nv, nm@);
            assert(ts@.subrange(body as int, p2 as int) =~= ts@.subrange(
                body as int,
                p as int,
            ) + ts@.subrange(p as int, p2 as int));
        }
        p = p2;
        k = k + 1;
    }
    let ghost nv = Seq::new(names@.len(), |i: int| names@[i]@);
    proof {
        // with every name read, the stream position and the list are
        // pinned against any encoding hypothesis
        assert forall|v: Option<AnimV>, e: int|
            #![trigger anim_toks(v), ts@.subrange(pos as int, e)]
            (pos + anim_toks(v).len() == e && e <= ts@.len() && ts@.subrange(pos as int, e)
                == anim_toks(v) && (v matches Option::Some(av) ==> av.image_names.len() >= 1))
                implies (v matches Option::Some(av) && av.image_names == nv && p + 2 == e) by {
            if v is None {
                assert(ts@.subrange(pos as int, e)[0] == ts@[pos as int]);
            } else {
                let av = v->Some_0;
                let head = seq![1u64, av.image_names.len() as u64];
                let tail = seq![i16_tok(av.tick_interval), i16_tok(av.ticks)];
                assert(anim_toks(v) == head + strs_toks(av.image_names) + tail);
                lemma_tok_split(ts@, pos as int, head + strs_toks(av.image_names), tail);
                lemma_tok_split(ts@, pos as int, head, strs_toks(av.image_names));
                assert(ts@.subrange(pos as int, pos as int + 2)[1] == ts@[pos as int + 1]);
                lemma_strs_toks_min_len(av.image_names);
                assert(av.image_names.len() < 0x10000000000000000);
                assert(av.image_names.len() == cnt as nat);
                lemma_strs_prefix(ts@, body as int, nv, av.image_names);
                assert(av.image_names.take(av.image_names.len() as int) =~= av.image_names);
            }
        }
    }
    if ts.len() - p < 2 {
        return Option::None;
    }
    let iv = match read_i16_tok(ts[p]) {
        Option::Some(v) => v,
        Option::None => {
            return Option::None;
        },
    };
    let tk = match read_i16_tok(ts[p + 1]) {
        Option::Some(v) => v,
        Option::None => {
            return Option::None;
        },
    };
    let out = GraphicAnimatable { image_names: names, tick_interval: iv, ticks: tk };
    proof {
        assert(ts@.subrange(pos as int, (p + 2) as int) =~= anim_toks(
            opt_anim_view(Option::Some(out)),
        ));
        assert forall|v: Option<AnimV>, e: int|
            #![trigger anim_toks(v), ts@.subrange(pos as int, e)]
            (pos + anim_toks(v).len() == e && e <= ts@.len() && ts@.subrange(pos as int, e)
                == anim_toks(v) && (v matches Option::Some(av) ==> av.image_names.len() >= 1))
                implies (opt_anim_view(Option::Some(out)) == v && p + 2 == e) by {
            if v is Some {
                let av = v->Some_0;
                assert(opt_anim_view(Option::Some(out))->Some_0 =~= av);
            }
        }
    }
    Option::Some((Option::Some(out), p + 2))
}

fn parse_move_slot(ts: &Vec<u64>, pos: usize) -> (r: Option<(Option<WantsToMoveTo>, usize)>)
    requires
        pos <= ts@.len(),
    ensures
        r matches Option::Some(op) ==> pos < op.1 <= ts@.len() && ts@.subrange(
            pos as int,
            op.1 as int,
        ) == move_toks(op.0),
        forall|v: Option<WantsToMoveTo>, e: int|
            #![trigger move_toks(v), ts@.subrange(pos as int, e)]
            (pos + move_toks(v).len() == e && e <= ts@.len() && ts@.subrange(pos as int, e)
                == move_toks(v)) ==> (r matches Option::Some(op) && op.0 == v && op.1 == e),
{
    proof {
        assert forall|v: Option<WantsToMoveTo>, e: int|
            #![trigger move_toks(v), ts@.subrange(pos as int, e)]
            (pos + move_toks(v).len() == e && e <= ts@.len() && ts@.subrange(pos as int, e)
                == move_toks(v)) implies (match v {
            Option::None => e == pos + 1 && ts@[pos as int] == 0,
            Option::Some(m) => e == pos + 4 && ts@[pos as int] == 1 && ts@[pos as int + 1]
                == i32_tok(m.x) && ts@[pos as int + 2] == i32_tok(m.y) && ts@[pos as int + 3]
                == i16_tok(m.speed),
        }) by {
            assert(ts@.subrange(pos as int, e)[0] == ts@[pos as int]);
            if v is Some {
                assert(ts@.subrange(pos as int, e)[1] == ts@[pos as int + 1]);
                assert(ts@.subrange(pos as int, e)[2] == ts@[pos as int + 2]);
                assert(ts@.subrange(pos as int, e)[3] == ts@[pos as int + 3]);
            }
        }
    }
    if pos >= ts.len() {
        return Option::None;
    }
    let flag = ts[pos];
    let p = pos + 1;
    if flag == 0 {
        proof {
            assert(ts@.subrange(pos as int, p as int).len() == 1);
        }
        return Option::Some((Option::None, p));
    }
    if flag != 1 {
        return Option::None;
    }
    if ts.len() - p < 3 {
        return Option::None;
    }
    let x = match read_i32_tok(ts[p], false) {
        Option::Some(v) => v,
        Option::None => {
            return Option::None;
        },
    };
    let y = match read_i32_tok(ts[p + 1], false) {
        Option::Some(v) => v,
        Option::None => {
            return Option::None;
        },
    };
    let sp = match read_i16_tok(ts[p + 2]) {
        Option::Some(v) => v,
        Option::None => {
            return Option::None;
        },
    };
    proof {
        assert(ts@.subrange(pos as int, (p + 3) as int) =~= move_toks(
            Option::Some(WantsToMoveTo { x, y, speed: sp }),
        ));
    }
    Option::Some((Option::Some(WantsToMoveTo { x, y, speed: sp }), p + 3))
}

fn parse_disap_slot(ts: &Vec<u64>, pos: usize) -> (r: Option<(Option<Disappearing>, usize)>)
    requires
        pos <= ts@.len(),
    ensures
        r matches Option::Some(op) ==> pos < op.1 <= ts@.len() && ts@.subrange(
            pos as int,
            op.1 as int,
        ) == disap_toks(op.0),
        forall|v: Option<Disappearing>, e: int|
            #![trigger disap_toks(v), ts@.subrange(pos as int, e)]
            (pos + disap_toks(v).len() == e && e <= ts@.len() && ts@.subrange(pos as int, e)
                == disap_toks(v)) ==> (r matches Option::Some(op) && op.0 == v && op.1 == e),
{
    proof {
        assert forall|v: Option<Disappearing>, e: int|
            #![trigger disap_toks(v), ts@.subrange(pos as int, e)]
            (pos + disap_toks(v).len() == e && e <= ts@.len() && ts@.subrange(pos as int, e)
                == disap_toks(v)) implies (match v {
            Option::None => e == pos + 1 && ts@[pos as int] == 0,
            Option::Some(d) => e == pos + 3 && ts@[pos as int] == 1 && ts@[pos as int + 1]
                == d.total_ticks as u64 && ts@[pos as int + 2] == d.ticks_left as u64,
        }) by {
            assert(ts@.subrange(pos as int, e)[0] == ts@[pos as int]);
            if v is Some {
                assert(ts@.subrange(pos as int, e)[1] == ts@[pos as int + 1]);
                assert(ts@.subrange(pos as int, e)[2] == ts@[pos as int + 2]);
            }
        }
    }
    if pos >= ts.len() {
        return Option::None;
    }
    let flag = ts[pos];
    let p = pos + 1;
    if flag == 0 {
        proof {
            assert(ts@.subrange(pos as int, p as int).len() == 1);
        }
        return Option::Some((Option::None, p));
    }
    if flag != 1 {
        return Option::None;
    }
    if ts.len() - p < 2 {
        return Option::None;
    }
    let total = ts[p];
    let left = ts[p + 1];
    if total > (u32::MAX as u64) || left > (u32::MAX as u64) {
        return Option::None;
    }
    let out = Disappearing { total_ticks: total as u32, ticks_left: left as u32 };
    proof {
        assert(ts@.subrange(pos as int, (p + 2) as int) =~= disap_toks(Option::Some(out)));
    }
    Option::Some((Option::Some(out), p + 2))
}

fn parse_carried_slot(ts: &Vec<u64>, pos: usize) -> (r: Option<(Option<CarriedBy>, usize)>)
    requires
        pos <= ts@.len(),
    ensures
        r matches Option::Some(op) ==> pos < op.1 <= ts@.len() && ts@.subrange(
            pos as int,
            op.1 as int,
        ) == carried_toks(op.0),
        forall|v: Option<CarriedBy>, e: int|
            #![trigger carried_toks(v), ts@.subrange(pos as int, e)]
            (pos + carried_toks(v).len() == e && e <= ts@.len() && ts@.subrange(pos as int, e)
                == carried_toks(v)) ==> (r matches Option::Some(op) && op.0 == v && op.1 == e),
{
    proof {
        assert forall|v: Option<CarriedBy>, e: int|
            #![trigger carried_toks(v), ts@.subrange(pos as int, e)]
            (pos + carried_toks(v).len() == e && e <= ts@.len() && ts@.subrange(pos as int, e)
                == carried_toks(v)) implies (match v {
            Option::None => e == pos + 1 && ts@[pos as int] == 0,
            Option::Some(c) => e == pos + 2 && ts@[pos as int] == 1 && ts@[pos as int + 1]
                == c.owner,
        }) by {
            assert(ts@.subrange(pos as int, e)[0] == ts@[pos as int]);
            if v is Some {
                assert(ts@.subrange(pos as int, e)[1] == ts@[pos as int + 1]);
            }
        }
    }
    if pos >= ts.len() {
        return Option::None;
    }
    let flag = ts[pos];
    let p = pos + 1;
    if flag == 0 {
        proof {
            assert(ts@.subrange(pos as int, p as int).len() == 1);
        }
        return Option::Some((Option::None, p));
    }
    if flag != 1 {
        return Option::None;
    }
    if ts.len() - p < 1 {
        return Option::None;
    }
    let out = CarriedBy { owner: ts[p] };
    proof {
        assert(ts@.subrange(pos as int, (p + 1) as int) =~= carried_toks(Option::Some(out)));
    }
    Option::Some((Option::Some(out), p + 1))
}

fn parse_crab_slot(ts: &Vec<u64>, pos: usize) -> (r: Option<(Option<CrabAI>, usize)>)
    requires
        pos <= ts@.len(),
    ensures
        r matches Option::Some(op) ==> pos < op.1 <= ts@.len() && ts@.subrange(
            pos as int,
            op.1 as int,
        ) == crab_toks(op.0),
        forall|v: Option<CrabAI>, e: int|
            #![trigger crab_toks(v), ts@.subrange(pos as int, e)]
            (pos + crab_toks(v).len() == e && e <= ts@.len() && ts@.subrange(pos as int, e)
                == crab_toks(v)) ==> (r matches Option::Some(op) && op.0 == v && op.1 == e),
{
    proof {
        assert forall|v: Option<CrabAI>, e: int|
            #![trigger crab_toks(v), ts@.subrange(pos as int, e)]
            (pos + crab_toks(v).len() == e && e <= ts@.len() && ts@.subrange(pos as int, e)
                == crab_toks(v)) implies (match v {
            Option::None => e == pos + 1 && ts@[pos as int] == 0,
            Option::Some(c) => e == pos + 6 && ts@[pos as int] == 1 && ts@[pos as int + 1]
                == crab_state_tok(c.crab_state) && ts@[pos as int + 2] == i16_tok(c.tick_interval)
                && ts@[pos as int + 3] == i16_tok(c.ticks) && ts@[pos as int + 4] == i16_tok(
                c.walk_speed,
            ) && ts@[pos as int + 5] == i16_tok(c.sleep_duration),
        }) by {
            assert(ts@.subrange(pos as int, e)[0] == ts@[pos as int]);
            if v is Some {
                assert(ts@.subrange(pos as int, e)[1] == ts@[pos as int + 1]);
                assert(ts@.subrange(pos as int, e)[2] == ts@[pos as int + 2]);
                assert(ts@.subrange(pos as int, e)[3] == ts@[pos as int + 3]);
                assert(ts@.subrange(pos as int, e)[4] == ts@[pos as int + 4]);
                assert(ts@.subrange(pos as int, e)[5] == ts@[pos as int + 5]);
            }
        }
    }
    if pos >= ts.len() {
        return Option::None;
    }
    let flag = ts[pos];
    let p = pos + 1;
    if flag == 0 {
        proof {
            assert(ts@.subrange(pos as int, p as int).len() == 1);
        }
        return Option::Some((Option::None, p));
    }
    if flag != 1 {
        return Option::None;
    }
    if ts.len() - p < 5 {
        return Option::None;
    }
    let st = match ts[p] {
        0 => CrabAIState::WalkingRight,
        1 => CrabAIState::SleepingRight,
        2 => CrabAIState::WalkingLeft,
        3 => CrabAIState::SleepingLeft,
        _ => {
            return Option::None;
        },
    };
    let iv = match read_i16_tok(ts[p + 1]) {
        Option::Some(v) => v,
        Option::None => {
            return Option::None;
        },
    };
    let tk = match read_i16_tok(ts[p + 2]) {
        Option::Some(v) => v,
        Option::None => {
            return Option::None;
        },
    };
    let ws = match read_i16_tok(ts[p + 3]) {
        Option::Some(v) => v,
        Option::None => {
            return Option::None;
        },
    };
    let sd = match read_i16_tok(ts[p + 4]) {
        Option::Some(v) => v,
        Option::None => {
            return Option::None;
        },
    };
    let out = CrabAI {
        crab_state: st,
        tick_interval: iv,
        ticks: tk,
        walk_speed: ws,
        sleep_duration: sd,
    };
    proof {
        assert(ts@.subrange(pos as int, (p + 5) as int) =~= crab_toks(Option::Some(out)));
    }
    Option::Some((Option::Some(out), p + 5))
}

/// The cumulative token offsets of a record's slots, relative to the
/// record's first token.
pub open spec fn rec_off(rv: RecV, k: int) -> int
    decreases k,
{
    if k <= 0 {
        1
    } else {
        rec_off(rv, k - 1) + (if k == 1 {
            fps_toks(rv.fps_tracker).len() as int
        } else if k == 2 {
            loc_toks(rv.location).len() as int
        } else if k == 3 {
            player_toks(rv.player_info).len() as int
        } else if k == 4 {
            rend_toks(rv.renderable).len() as int
        } else if k == 5 {
            text_toks(rv.text_renderable).len() as int
        } else if k == 6 {
            chat_toks(rv.chat_renderable).len() as int
        } else if k == 7 {
            graphic_toks(rv.graphic_renderable).len() as int
        } else if k == 8 {
            anim_toks(rv.graphic_animatable).len() as int
        } else if k == 9 {
            move_toks(rv.wants_to_move_to).len() as int
        } else if k == 10 {
            disap_toks(rv.disappearing).len() as int
        } else if k == 11 {
            carried_toks(rv.carried_by).len() as int
        } else {
            crab_toks(rv.crab_ai).len() as int
        })
    }
}

/// The record token form decomposes at its slot offsets.
#[verifier::rlimit(100)]
#[verifier::spinoff_prover]
proof fn lemma_rec_toks_decompose(ts: Seq<u64>, pos0: int, rv: RecV, e: int)
    requires
        0 <= pos0,
        pos0 + rec_toks(rv).len() == e,
        e <= ts.len(),
        ts.subrange(pos0, e) == rec_toks(rv),
    ensures
        e == pos0 + rec_off(rv, 12) + 2,
        ts[pos0] == rv.marker,
        ts.subrange(pos0 + rec_off(rv, 0), pos0 + rec_off(rv, 1)) == fps_toks(rv.fps_tracker),
        ts.subrange(pos0 + rec_off(rv, 1), pos0 + rec_off(rv, 2)) == loc_toks(rv.location),
        ts.subrange(pos0 + rec_off(rv, 2), pos0 + rec_off(rv, 3)) == player_toks(rv.player_info),
        ts.subrange(pos0 + rec_off(rv, 3), pos0 + rec_off(rv, 4)) == rend_toks(rv.renderable),
        ts.subrange(pos0 + rec_off(rv, 4), pos0 + rec_off(rv, 5)) == text_toks(
            rv.text_renderable,
        ),
        ts.subrange(pos0 + rec_off(rv, 5), pos0 + rec_off(rv, 6)) == chat_toks(
            rv.chat_renderable,
        ),
        ts.subrange(pos0 + rec_off(rv, 6), pos0 + rec_off(rv, 7)) == graphic_toks(
            rv.graphic_renderable,
        ),
        ts.subrange(pos0 + rec_off(rv, 7), pos0 + rec_off(rv, 8)) == anim_toks(
            rv.graphic_animatable,
        ),
        ts.subrange(pos0 + rec_off(rv, 8), pos0 + rec_off(rv, 9)) == move_toks(
            rv.wants_to_move_to,
        ),
        ts.subrange(pos0 + rec_off(rv, 9), pos0 + rec_off(rv, 10)) == disap_toks(
            rv.disappearing,
        ),
        ts.subrange(pos0 + rec_off(rv, 10), pos0 + rec_off(rv, 11)) == carried_toks(
            rv.carried_by,
        ),
        ts.subrange(pos0 + rec_off(rv, 11), pos0 + rec_off(rv, 12)) == crab_toks(rv.crab_ai),
        ts.subrange(pos0 + rec_off(rv, 12), e) == flags_toks(
            rv.wants_to_be_picked_up,
            rv.wants_to_stab,
        ),
{
    let m = seq![rv.marker];
    let t1 = fps_toks(rv.fps_tracker);
    let t2 = loc_toks(rv.location);
    let t3 = player_toks(rv.player_info);
    let t4 = rend_toks(rv.renderable);
    let t5 = text_toks(rv.text_renderable);
    let t6 = chat_toks(rv.chat_renderable);
    let t7 = graphic_toks(rv.graphic_renderable);
    let t8 = anim_toks(rv.graphic_animatable);
    let t9 = move_toks(rv.wants_to_move_to);
    let t10 = disap_toks(rv.disappearing);
    let t11 = carried_toks(rv.carried_by);
    let t12 = crab_toks(rv.crab_ai);
    let t13 = flags_toks(rv.wants_to_be_picked_up, rv.wants_to_stab);
    // regroup the left-leaning sum so each part can be split off the
    // front in turn
    let r13 = t13;
    let r12 = t12 + r13;
    let r11 = t11 + r12;
    let r10 = t10 + r11;
    let r9 = t9 + r10;
    let r8 = t8 + r9;
    let r7 = t7 + r8;
    let r6 = t6 + r7;
    let r5 = t5 + r6;
    let r4 = t4 + r5;
    let r3 = t3 + r4;
    let r2 = t2 + r3;
    let r1 = t1 + r2;
    let r0 = m + r1;
    let l1 = m + t1;
    let l2 = l1 + t2;
    let l3 = l2 + t3;
    let l4 = l3 + t4;
    let l5 = l4 + t5;
    let l6 = l5 + t6;
    let l7 = l6 + t7;
    let l8 = l7 + t8;
    let l9 = l8 + t9;
    let l10 = l9 + t10;
    let l11 = l10 + t11;
    let l12 = l11 + t12;
    let l13 = l12 + t13;
    assert(rec_toks(rv) == l13);
    vstd::seq_lib::lemma_concat_associative(l11, t12, r13);
    vstd::seq_lib::lemma_concat_associative(l10, t11, r12);
    vstd::seq_lib::lemma_concat_associative(l9, t10, r11);
    vstd::seq_lib::lemma_concat_associative(l8, t9, r10);
    vstd::seq_lib::lemma_concat_associative(l7, t8, r9);
    vstd::seq_lib::lemma_concat_associative(l6, t7, r8);
    vstd::seq_lib::lemma_concat_associative(l5, t6, r7);
    vstd::seq_lib::lemma_concat_associative(l4, t5, r6);
    vstd::seq_lib::lemma_concat_associative(l3, t4, r5);
    vstd::seq_lib::lemma_concat_associative(l2, t3, r4);
    vstd::seq_lib::lemma_concat_associative(l1, t2, r3);
    vstd::seq_lib::lemma_concat_associative(m, t1, r2);
    assert(l13 == l12 + r13);
    assert(l12 + r13 == l11 + r12);
    assert(l11 + r12 == l10 + r11);
    assert(l10 + r11 == l9 + r10);
    assert(l9 + r10 == l8 + r9);
    assert(l8 + r9 == l7 + r8);
    assert(l7 + r8 == l6 + r7);
    assert(l6 + r7 == l5 + r6);
    assert(l5 + r6 == l4 + r5);
    assert(l4 + r5 == l3 + r4);
    assert(l3 + r4 == l2 + r3);
    assert(l2 + r3 == l1 + r2);
    assert(l1 + r2 == m + r1);
    assert(rec_toks(rv) == r0);
    assert(ts.subrange(pos0, e) == r0);
    lemma_tok_split(ts, pos0, m, r1);
    assert(ts.subrange(pos0, pos0 + 1)[0] == ts[pos0]);
    lemma_tok_split(ts, pos0 + rec_off(rv, 0), t1, r2);
    lemma_tok_split(ts, pos0 + rec_off(rv, 1), t2, r3);
    lemma_tok_split(ts, pos0 + rec_off(rv, 2), t3, r4);
    lemma_tok_split(ts, pos0 + rec_off(rv, 3), t4, r5);
    lemma_tok_split(ts, pos0 + rec_off(rv, 4), t5, r6);
    lemma_tok_split(ts, pos0 + rec_off(rv, 5), t6, r7);
    lemma_tok_split(ts, pos0 + rec_off(rv, 6), t7, r8);
    lemma_tok_split(ts, pos0 + rec_off(rv, 7), t8, r9);
    lemma_tok_split(ts, pos0 + rec_off(rv, 8), t9, r10);
    lemma_tok_split(ts, pos0 + rec_off(rv, 9), t10, r11);
    lemma_tok_split(ts, pos0 + rec_off(rv, 10), t11, r12);
    lemma_tok_split(ts, pos0 + rec_off(rv, 11), t12, r13);
}

/// Parse one record out of the token stream, validating every
/// per-record invariant; the carry owner still holds a marker, and
/// the consumed tokens are exactly the record's token form.
#[verifier::rlimit(100)]
#[verifier::spinoff_prover]
fn parse_rec(ts: &Vec<u64>, pos0: usize) -> (r: Option<(EntityRecord, usize)>)
    requires
        pos0 <= ts@.len(),
    ensures
        r matches Option::Some(rp) ==> pos0 < rp.1 <= ts@.len() && rec_wf(rp.0@) && rp.0@.id == 0
            && ts@.subrange(pos0 as int, rp.1 as int) == rec_toks(rp.0@),
        forall|rv: RecV, e: int|
            #![trigger rec_toks(rv), ts@.subrange(pos0 as int, e)]
            (pos0 + rec_toks(rv).len() == e && e <= ts@.len() && ts@.subrange(pos0 as int, e)
                == rec_toks(rv) && rec_wf(rv)) ==> (r matches Option::Some(rp) && rp.0@ == (RecV { id: 0, ..rv })
                && rp.1 == e),
{
    proof {
        assert forall|rv: RecV, e: int|
            #![trigger rec_toks(rv), ts@.subrange(pos0 as int, e)]
            (pos0 + rec_toks(rv).len() == e && e <= ts@.len() && ts@.subrange(pos0 as int, e)
                == rec_toks(rv) && rec_wf(rv)) implies (pos0 < ts@.len() && ts@[pos0 as int] == rv.marker) by {
            lemma_rec_toks_decompose(ts@, pos0 as int, rv, e);
        }
    }
    if pos0 >= ts.len() {
        return Option::None;
    }
    let marker = ts[pos0];
    let pos = pos0 + 1;
    let ghost q0 = pos;
    proof {
        assert forall|rv: RecV, e: int|
            #![trigger rec_toks(rv), ts@.subrange(pos0 as int, e)]
            (pos0 + rec_toks(rv).len() == e && e <= ts@.len() && ts@.subrange(pos0 as int, e)
                == rec_toks(rv) && rec_wf(rv)) implies (q0 == pos0 + rec_off(rv, 0) && pos0 + rec_off(rv, 1)
            <= ts@.len() && ts@.subrange(q0 as int, pos0 + rec_off(rv, 1)) == fps_toks(
            rv.fps_tracker)) by {
            lemma_rec_toks_decompose(ts@, pos0 as int, rv, e);
        }
    }
    let (fps, pos) = match parse_fps_slot(ts, pos) {
        Option::Some(op) => op,
        Option::None => {
            return Option::None;
        },
    };
    let ghost q1 = pos;
    proof {
        assert forall|rv: RecV, e: int|
            #![trigger rec_toks(rv), ts@.subrange(pos0 as int, e)]
            (pos0 + rec_toks(rv).len() == e && e <= ts@.len() && ts@.subrange(pos0 as int, e)
                == rec_toks(rv) && rec_wf(rv)) implies (q1 == pos0 + rec_off(rv, 1) && (fps == rv.fps_tracker)) by {
            lemma_rec_toks_decompose(ts@, pos0 as int, rv, e);
            assert(ts@.subrange(q0 as int, pos0 + rec_off(rv, 1)) == fps_toks(rv.fps_tracker));
        }
    }
    proof {
        assert forall|rv: RecV, e: int|
            #![trigger rec_toks(rv), ts@.subrange(pos0 as int, e)]
            (pos0 + rec_toks(rv).len() == e && e <= ts@.len() && ts@.subrange(pos0 as int, e)
                == rec_toks(rv) && rec_wf(rv)) implies (q1 == pos0 + rec_off(rv, 1) && pos0 + rec_off(rv, 2)
            <= ts@.len() && ts@.subrange(q1 as int, pos0 + rec_off(rv, 2)) == loc_toks(
            rv.location)) by {
            lemma_rec_toks_decompose(ts@, pos0 as int, rv, e);
        }
    }
    let (loc, pos) = match parse_loc_slot(ts, pos) {
        Option::Some(op) => op,
        Option::None => {
            return Option::None;
        },
    };
    let ghost q2 = pos;
    proof {
        assert forall|rv: RecV, e: int|
            #![trigger rec_toks(rv), ts@.subrange(pos0 as int, e)]
            (pos0 + rec_toks(rv).len() == e && e <= ts@.len() && ts@.subrange(pos0 as int, e)
                == rec_toks(rv) && rec_wf(rv)) implies (q2 == pos0 + rec_off(rv, 2) && (loc == rv.location)) by {
            lemma_rec_toks_decompose(ts@, pos0 as int, rv, e);
            assert(ts@.subrange(q1 as int, pos0 + rec_off(rv, 2)) == loc_toks(rv.location));
        }
    }
    proof {
        assert forall|rv: RecV, e: int|
            #![trigger rec_toks(rv), ts@.subrange(pos0 as int, e)]
            (pos0 + rec_toks(rv).len() == e && e <= ts@.len() && ts@.subrange(pos0 as int, e)
                == rec_toks(rv) && rec_wf(rv)) implies (q2 == pos0 + rec_off(rv, 2) && pos0 + rec_off(rv, 3)
            <= ts@.len() && ts@.subrange(q2 as int, pos0 + rec_off(rv, 3)) == player_toks(
            rv.player_info)) by {
            lemma_rec_toks_decompose(ts@, pos0 as int, rv, e);
        }
    }
    let (player, pos) = match parse_player_slot(ts, pos) {
        Option::Some(op) => op,
        Option::None => {
            return Option::None;
        },
    };
    let ghost q3 = pos;
    proof {
        assert forall|rv: RecV, e: int|
            #![trigger rec_toks(rv), ts@.subrange(pos0 as int, e)]
            (pos0 + rec_toks(rv).len() == e && e <= ts@.len() && ts@.subrange(pos0 as int, e)
                == rec_toks(rv) && rec_wf(rv)) implies (q3 == pos0 + rec_off(rv, 3) && (opt_player_view(player) == rv.player_info)) by {
            lemma_rec_toks_decompose(ts@, pos0 as int, rv, e);
            assert(ts@.subrange(q2 as int, pos0 + rec_off(rv, 3)) == player_toks(rv.player_info));
        }
    }
    proof {
        assert forall|rv: RecV, e: int|
            #![trigger rec_toks(rv), ts@.subrange(pos0 as int, e)]
            (pos0 + rec_toks(rv).len() == e && e <= ts@.len() && ts@.subrange(pos0 as int, e)
                == rec_toks(rv) && rec_wf(rv)) implies (q3 == pos0 + rec_off(rv, 3) && pos0 + rec_off(rv, 4)
            <= ts@.len() && ts@.subrange(q3 as int, pos0 + rec_off(rv, 4)) == rend_toks(
            rv.renderable)) by {
            lemma_rec_toks_decompose(ts@, pos0 as int, rv, e);
        }
    }
    let (rend, pos) = match parse_rend_slot(ts, pos) {
        Option::Some(op) => op,
        Option::None => {
            return Option::None;
        },
    };
    let ghost q4 = pos;
    proof {
        assert forall|rv: RecV, e: int|
            #![trigger rec_toks(rv), ts@.subrange(pos0 as int, e)]
            (pos0 + rec_toks(rv).len() == e && e <= ts@.len() && ts@.subrange(pos0 as int, e)
                == rec_toks(rv) && rec_wf(rv)) implies (q4 == pos0 + rec_off(rv, 4) && (rend == rv.renderable)) by {
            lemma_rec_toks_decompose(ts@, pos0 as int, rv, e);
            assert(ts@.subrange(q3 as int, pos0 + rec_off(rv, 4)) == rend_toks(rv.renderable));
        }
    }
    proof {
        assert forall|rv: RecV, e: int|
            #![trigger rec_toks(rv), ts@.subrange(pos0 as int, e)]
            (pos0 + rec_toks(rv).len() == e && e <= ts@.len() && ts@.subrange(pos0 as int, e)
                == rec_toks(rv) && rec_wf(rv)) implies (q4 == pos0 + rec_off(rv, 4) && pos0 + rec_off(rv, 5)
            <= ts@.len() && ts@.subrange(q4 as int, pos0 + rec_off(rv, 5)) == text_toks(
            rv.text_renderable)) by {
            lemma_rec_toks_decompose(ts@, pos0 as int, rv, e);
        }
    }
    let (text, pos) = match parse_text_slot(ts, pos) {
        Option::Some(op) => op,
        Option::None => {
            return Option::None;
        },
    };
    let ghost q5 = pos;
    proof {
        assert forall|rv: RecV, e: int|
            #![trigger rec_toks(rv), ts@.subrange(pos0 as int, e)]
            (pos0 + rec_toks(rv).len() == e && e <= ts@.len() && ts@.subrange(pos0 as int, e)
                == rec_toks(rv) && rec_wf(rv)) implies (q5 == pos0 + rec_off(rv, 5) && (opt_text_view(text) == rv.text_renderable)) by {
            lemma_rec_toks_decompose(ts@, pos0 as int, rv, e);
            assert(ts@.subrange(q4 as int, pos0 + rec_off(rv, 5)) == text_toks(rv.text_renderable));
        }
    }
    proof {
        assert forall|rv: RecV, e: int|
            #![trigger rec_toks(rv), ts@.subrange(pos0 as int, e)]
            (pos0 + rec_toks(rv).len() == e && e <= ts@.len() && ts@.subrange(pos0 as int, e)
                == rec_toks(rv) && rec_wf(rv)) implies (q5 == pos0 + rec_off(rv, 5) && pos0 + rec_off(rv, 6)
            <= ts@.len() && ts@.subrange(q5 as int, pos0 + rec_off(rv, 6)) == chat_toks(
            rv.chat_renderable)) by {
            lemma_rec_toks_decompose(ts@, pos0 as int, rv, e);
        }
    }
    let (chat, pos) = match parse_chat_slot(ts, pos) {
        Option::Some(op) => op,
        Option::None => {
            return Option::None;
        },
    };
    let ghost q6 = pos;
    proof {
        assert forall|rv: RecV, e: int|
            #![trigger rec_toks(rv), ts@.subrange(pos0 as int, e)]
            (pos0 + rec_toks(rv).len() == e && e <= ts@.len() && ts@.subrange(pos0 as int, e)
                == rec_toks(rv) && rec_wf(rv)) implies (q6 == pos0 + rec_off(rv, 6) && (opt_chat_view(chat) == rv.chat_renderable)) by {
            lemma_rec_toks_decompose(ts@, pos0 as int, rv, e);
            assert(ts@.subrange(q5 as int, pos0 + rec_off(rv, 6)) == chat_toks(rv.chat_renderable));
        }
    }
    proof {
        assert forall|rv: RecV, e: int|
            #![trigger rec_toks(rv), ts@.subrange(pos0 as int, e)]
            (pos0 + rec_toks(rv).len() == e && e <= ts@.len() && ts@.subrange(pos0 as int, e)
                == rec_toks(rv) && rec_wf(rv)) implies (q6 == pos0 + rec_off(rv, 6) && pos0 + rec_off(rv, 7)
            <= ts@.len() && ts@.subrange(q6 as int, pos0 + rec_off(rv, 7)) == graphic_toks(
            rv.graphic_renderable)) by {
            lemma_rec_toks_decompose(ts@, pos0 as int, rv, e);
        }
    }
    let (graphic, pos) = match parse_graphic_slot(ts, pos) {
        Option::Some(op) => op,
        Option::None => {
            return Option::None;
        },
    };
    let ghost q7 = pos;
    proof {
        assert forall|rv: RecV, e: int|
            #![trigger rec_toks(rv), ts@.subrange(pos0 as int, e)]
            (pos0 + rec_toks(rv).len() == e && e <= ts@.len() && ts@.subrange(pos0 as int, e)
                == rec_toks(rv) && rec_wf(rv)) implies (q7 == pos0 + rec_off(rv, 7) && (opt_graphic_view(graphic) == rv.graphic_renderable)) by {
            lemma_rec_toks_decompose(ts@, pos0 as int, rv, e);
            assert(ts@.subrange(q6 as int, pos0 + rec_off(rv, 7)) == graphic_toks(rv.graphic_renderable));
        }
    }
    proof {
        assert forall|rv: RecV, e: int|
            #![trigger rec_toks(rv), ts@.subrange(pos0 as int, e)]
            (pos0 + rec_toks(rv).len() == e && e <= ts@.len() && ts@.subrange(pos0 as int, e)
                == rec_toks(rv) && rec_wf(rv)) implies (q7 == pos0 + rec_off(rv, 7) && pos0 + rec_off(rv, 8)
            <= ts@.len() && ts@.subrange(q7 as int, pos0 + rec_off(rv, 8)) == anim_toks(
            rv.graphic_animatable)) by {
            lemma_rec_toks_decompose(ts@, pos0 as int, rv, e);
        }
    }
    let (anim, pos) = match parse_anim_slot(ts, pos) {
        Option::Some(op) => op,
        Option::None => {
            return Option::None;
        },
    };
    let ghost q8 = pos;
    proof {
        assert forall|rv: RecV, e: int|
            #![trigger rec_toks(rv), ts@.subrange(pos0 as int, e)]
            (pos0 + rec_toks(rv).len() == e && e <= ts@.len() && ts@.subrange(pos0 as int, e)
                == rec_toks(rv) && rec_wf(rv)) implies (q8 == pos0 + rec_off(rv, 8) && (opt_anim_view(anim) == rv.graphic_animatable)) by {
            lemma_rec_toks_decompose(ts@, pos0 as int, rv, e);
            assert(ts@.subrange(q7 as int, pos0 + rec_off(rv, 8)) == anim_toks(rv.graphic_animatable));
        }
    }
    proof {
        assert forall|rv: RecV, e: int|
            #![trigger rec_toks(rv), ts@.subrange(pos0 as int, e)]
            (pos0 + rec_toks(rv).len() == e && e <= ts@.len() && ts@.subrange(pos0 as int, e)
                == rec_toks(rv) && rec_wf(rv)) implies (q8 == pos0 + rec_off(rv, 8) && pos0 + rec_off(rv, 9)
            <= ts@.len() && ts@.subrange(q8 as int, pos0 + rec_off(rv, 9)) == move_toks(
            rv.wants_to_move_to)) by {
            lemma_rec_toks_decompose(ts@, pos0 as int, rv, e);
        }
    }
    let (mv, pos) = match parse_move_slot(ts, pos) {
        Option::Some(op) => op,
        Option::None => {
            return Option::None;
        },
    };
    let ghost q9 = pos;
    proof {
        assert forall|rv: RecV, e: int|
            #![trigger rec_toks(rv), ts@.subrange(pos0 as int, e)]
            (pos0 + rec_toks(rv).len() == e && e <= ts@.len() && ts@.subrange(pos0 as int, e)
                == rec_toks(rv) && rec_wf(rv)) implies (q9 == pos0 + rec_off(rv, 9) && (mv == rv.wants_to_move_to)) by {
            lemma_rec_toks_decompose(ts@, pos0 as int, rv, e);
            assert(ts@.subrange(q8 as int, pos0 + rec_off(rv, 9)) == move_toks(rv.wants_to_move_to));
        }
    }
    proof {
        assert forall|rv: RecV, e: int|
            #![trigger rec_toks(rv), ts@.subrange(pos0 as int, e)]
            (pos0 + rec_toks(rv).len() == e && e <= ts@.len() && ts@.subrange(pos0 as int, e)
                == rec_toks(rv) && rec_wf(rv)) implies (q9 == pos0 + rec_off(rv, 9) && pos0 + rec_off(rv, 10)
            <= ts@.len() && ts@.subrange(q9 as int, pos0 + rec_off(rv, 10)) == disap_toks(
            rv.disappearing)) by {
            lemma_rec_toks_decompose(ts@, pos0 as int, rv, e);
        }
    }
    let (disap, pos) = match parse_disap_slot(ts, pos) {
        Option::Some(op) => op,
        Option::None => {
            return Option::None;
        },
    };
    let ghost q10 = pos;
    proof {
        assert forall|rv: RecV, e: int|
            #![trigger rec_toks(rv), ts@.subrange(pos0 as int, e)]
            (pos0 + rec_toks(rv).len() == e && e <= ts@.len() && ts@.subrange(pos0 as int, e)
                == rec_toks(rv) && rec_wf(rv)) implies (q10 == pos0 + rec_off(rv, 10) && (disap == rv.disappearing)) by {
            lemma_rec_toks_decompose(ts@, pos0 as int, rv, e);
            assert(ts@.subrange(q9 as int, pos0 + rec_off(rv, 10)) == disap_toks(rv.disappearing));
        }
    }
    proof {
        assert forall|rv: RecV, e: int|
            #![trigger rec_toks(rv), ts@.subrange(pos0 as int, e)]
            (pos0 + rec_toks(rv).len() == e && e <= ts@.len() && ts@.subrange(pos0 as int, e)
                == rec_toks(rv) && rec_wf(rv)) implies (q10 == pos0 + rec_off(rv, 10) && pos0 + rec_off(rv, 11)
            <= ts@.len() && ts@.subrange(q10 as int, pos0 + rec_off(rv, 11)) == carried_toks(
            rv.carried_by)) by {
            lemma_rec_toks_decompose(ts@, pos0 as int, rv, e);
        }
    }
    let (carried, pos) = match parse_carried_slot(ts, pos) {
        Option::Some(op) => op,
        Option::None => {
            return Option::None;
        },
    };
    let ghost q11 = pos;
    proof {
        assert forall|rv: RecV, e: int|
            #![trigger rec_toks(rv), ts@.subrange(pos0 as int, e)]
            (pos0 + rec_toks(rv).len() == e && e <= ts@.len() && ts@.subrange(pos0 as int, e)
                == rec_toks(rv) && rec_wf(rv)) implies (q11 == pos0 + rec_off(rv, 11) && (carried == rv.carried_by)) by {
            lemma_rec_toks_decompose(ts@, pos0 as int, rv, e);
            assert(ts@.subrange(q10 as int, pos0 + rec_off(rv, 11)) == carried_toks(rv.carried_by));
        }
    }
    proof {
        assert forall|rv: RecV, e: int|
            #![trigger rec_toks(rv), ts@.subrange(pos0 as int, e)]
            (pos0 + rec_toks(rv).len() == e && e <= ts@.len() && ts@.subrange(pos0 as int, e)
                == rec_toks(rv) && rec_wf(rv)) implies (q11 == pos0 + rec_off(rv, 11) && pos0 + rec_off(rv, 12)
            <= ts@.len() && ts@.subrange(q11 as int, pos0 + rec_off(rv, 12)) == crab_toks(
            rv.crab_ai)) by {
            lemma_rec_toks_decompose(ts@, pos0 as int, rv, e);
        }
    }
    let (crab, pos) = match parse_crab_slot(ts, pos) {
        Option::Some(op) => op,
        Option::None => {
            return Option::None;
        },
    };
    let ghost q12 = pos;
    proof {
        assert forall|rv: RecV, e: int|
            #![trigger rec_toks(rv), ts@.subrange(pos0 as int, e)]
            (pos0 + rec_toks(rv).len() == e && e <= ts@.len() && ts@.subrange(pos0 as int, e)
                == rec_toks(rv) && rec_wf(rv)) implies (q12 == pos0 + rec_off(rv, 12) && (crab == rv.crab_ai)) by {
            lemma_rec_toks_decompose(ts@, pos0 as int, rv, e);
            assert(ts@.subrange(q11 as int, pos0 + rec_off(rv, 12)) == crab_toks(rv.crab_ai));
        }
    }
    proof {
        assert forall|rv: RecV, e: int|
            #![trigger rec_toks(rv), ts@.subrange(pos0 as int, e)]
            (pos0 + rec_toks(rv).len() == e && e <= ts@.len() && ts@.subrange(pos0 as int, e)
                == rec_toks(rv) && rec_wf(rv)) implies (q12 == pos0 + rec_off(rv, 12) && e == q12 + 2) by {
            lemma_rec_toks_decompose(ts@, pos0 as int, rv, e);
        }
    }
    if ts.len() - pos < 2 {
        return Option::None;
    }
    let pflag = ts[pos];
    let sflag = ts[pos + 1];
    let pos = pos + 2;
    let ghost q13 = pos;
    proof {
        assert forall|rv: RecV, e: int|
            #![trigger rec_toks(rv), ts@.subrange(pos0 as int, e)]
            (pos0 + rec_toks(rv).len() == e && e <= ts@.len() && ts@.subrange(pos0 as int, e)
                == rec_toks(rv) && rec_wf(rv)) implies (pflag == (if rv.wants_to_be_picked_up {
            1u64
        } else {
            0u64
        }) && sflag == (if rv.wants_to_stab {
            1u64
        } else {
            0u64
        })) by {
            lemma_rec_toks_decompose(ts@, pos0 as int, rv, e);
            assert(ts@.subrange(q12 as int, e)[0] == ts@[q12 as int]);
            assert(ts@.subrange(q12 as int, e)[1] == ts@[q12 as int + 1]);
        }
    }
    if pflag > 1 || sflag > 1 {
        return Option::None;
    }
    let rec = EntityRecord {
        id: 0,
        marker,
        fps_tracker: fps,
        location: loc,
        player_info: player,
        renderable: rend,
        text_renderable: text,
        chat_renderable: chat,
        graphic_renderable: graphic,
        graphic_animatable: anim,
        wants_to_move_to: mv,
        disappearing: disap,
        carried_by: carried,
        crab_ai: crab,
        wants_to_be_picked_up: if pflag == 1 {
            Option::Some(WantsToBePickedUp {  })
        } else {
            Option::None
        },
        wants_to_stab: if sflag == 1 {
            Option::Some(WantsToStab {  })
        } else {
            Option::None
        },
    };
    proof {
        assert forall|rv: RecV, e: int|
            #![trigger rec_toks(rv), ts@.subrange(pos0 as int, e)]
            (pos0 + rec_toks(rv).len() == e && e <= ts@.len() && ts@.subrange(pos0 as int, e)
                == rec_toks(rv) && rec_wf(rv)) implies (rec@ == (RecV { id: 0, ..rv }) && pos == e && rec_wf(
            rec@,
        )) by {
            lemma_rec_toks_decompose(ts@, pos0 as int, rv, e);
            assert(ts@.subrange(q12 as int, e).len() == 2);
            assert(ts@.subrange(q12 as int, e)[0] == ts@[q12 as int]);
            assert(ts@.subrange(q12 as int, e)[1] == ts@[q12 as int + 1]);
            assert(flags_toks(rv.wants_to_be_picked_up, rv.wants_to_stab)[0] == (if rv.wants_to_be_picked_up {
                1u64
            } else {
                0u64
            }));
            assert(flags_toks(rv.wants_to_be_picked_up, rv.wants_to_stab)[1] == (if rv.wants_to_stab {
                1u64
            } else {
                0u64
            }));
            assert(rec@ =~~= (RecV { id: 0, ..rv }));
        }
    }
    if !rec_wf_exec(&rec) {
        return Option::None;
    }
    proof {
        let t = ts@;
        let rv = rec@;
        assert(t.subrange(pos0 as int, q0 as int) =~= seq![rv.marker]);
        lemma_tok_join(t, pos0 as int, q0 as int, q1 as int);
        let s1 = seq![rv.marker] + fps_toks(rv.fps_tracker);
        lemma_tok_join(t, pos0 as int, q1 as int, q2 as int);
        let s2 = s1 + loc_toks(rv.location);
        lemma_tok_join(t, pos0 as int, q2 as int, q3 as int);
        let s3 = s2 + player_toks(rv.player_info);
        lemma_tok_join(t, pos0 as int, q3 as int, q4 as int);
        let s4 = s3 + rend_toks(rv.renderable);
        lemma_tok_join(t, pos0 as int, q4 as int, q5 as int);
        let s5 = s4 + text_toks(rv.text_renderable);
        lemma_tok_join(t, pos0 as int, q5 as int, q6 as int);
        let s6 = s5 + chat_toks(rv.chat_renderable);
        lemma_tok_join(t, pos0 as int, q6 as int, q7 as int);
        let s7 = s6 + graphic_toks(rv.graphic_renderable);
        lemma_tok_join(t, pos0 as int, q7 as int, q8 as int);
        let s8 = s7 + anim_toks(rv.graphic_animatable);
        lemma_tok_join(t, pos0 as int, q8 as int, q9 as int);
        let s9 = s8 + move_toks(rv.wants_to_move_to);
        lemma_tok_join(t, pos0 as int, q9 as int, q10 as int);
        let s10 = s9 + disap_toks(rv.disappearing);
        lemma_tok_join(t, pos0 as int, q10 as int, q11 as int);
        let s11 = s10 + carried_toks(rv.carried_by);
        lemma_tok_join(t, pos0 as int, q11 as int, q12 as int);
        let s12 = s11 + crab_toks(rv.crab_ai);
        assert(t.subrange(q12 as int, q13 as int) =~= flags_toks(
            rv.wants_to_be_picked_up,
            rv.wants_to_stab,
        ));
        lemma_tok_join(t, pos0 as int, q12 as int, q13 as int);
        let s13 = s12 + flags_toks(rv.wants_to_be_picked_up, rv.wants_to_stab);
        assert(t.subrange(pos0 as int, pos as int) == s13);
        assert(s13 == rec_toks(rv));
    }
    Option::Some((rec, pos))
}


} // verus!

verus! {

/// Decide the per-record invariant for a freshly parsed record.
fn rec_wf_exec(r: &EntityRecord) -> (b: bool)
    ensures
        b == rec_wf(r@),
{
    let cb = crate::world::COORD_BOUND;
    if let Option::Some(l) = &r.location {
        if l.x < -cb || l.x > cb || l.y < -cb || l.y > cb {
            return false;
        }
    }
    if let Option::Some(m) = &r.wants_to_move_to {
        if m.x < -cb || m.x > cb || m.y < -cb || m.y > cb || m.speed < 0 {
            return false;
        }
    }
    if let Option::Some(d) = &r.disappearing {
        if d.ticks_left > d.total_ticks {
            return false;
        }
    }
    if let Option::Some(a) = &r.graphic_animatable {
        if a.ticks < 0 || a.ticks > a.tick_interval || a.image_names.len() == 0 {
            return false;
        }
    }
    if let Option::Some(c) = &r.crab_ai {
        if c.ticks < 0 || c.ticks > c.tick_interval || c.walk_speed < 0 {
            return false;
        }
    }
    if r.player_info.is_some() {
        if r.disappearing.is_some() || r.carried_by.is_some()
            || r.wants_to_be_picked_up.is_some() {
            return false;
        }
    }
    if r.graphic_animatable.is_some() && r.graphic_renderable.is_some() {
        let names_len = match &r.graphic_animatable {
            Option::Some(a) => a.image_names.len(),
            Option::None => 0,
        };
        let mut found = false;
        let mut k: usize = 0;
        while k < names_len
            invariant
                k <= names_len,
                r.graphic_animatable matches Option::Some(a) ==> names_len
                    == a.image_names@.len(),
                found ==> (r.graphic_animatable matches Option::Some(a) ==> (
                r.graphic_renderable matches Option::Some(g) ==> crate::world::names_contain(
                    a@.image_names,
                    g@.image_name,
                ))),
                !found ==> (r.graphic_animatable matches Option::Some(a) ==> (
                r.graphic_renderable matches Option::Some(g) ==> forall|j: int|
                    0 <= j < k ==> a@.image_names[j] != g@.image_name)),
            decreases names_len - k,
        {
            if !found {
                let same = match (&r.graphic_animatable, &r.graphic_renderable) {
                    (Option::Some(a), Option::Some(g)) => {
                        let eq = a.image_names[k] == g.image_name;
                        eq
                    },
                    _ => false,
                };
                if same {
                    found = true;
                    proof {
                        if r.graphic_animatable is Some && r.graphic_renderable is Some {
                            let a = r.graphic_animatable->Some_0;
                            let g = r.graphic_renderable->Some_0;
                            assert(a@.image_names[k as int] == g@.image_name);
                        }
                    }
                }
            }
            k = k + 1;
        }
        if !found {
            proof {
                if r.graphic_animatable is Some && r.graphic_renderable is Some {
                    let a = r.graphic_animatable->Some_0;
                    let g = r.graphic_renderable->Some_0;
                    assert(!crate::world::names_contain(a@.image_names, g@.image_name));
                }
            }
            return false;
        }
    }
    proof {
        assert(rec_wf(r@));
    }
    true
}

} // verus!

verus! {

/// Record-for-record equal token forms give equal stream token forms.
proof fn lemma_recs_toks_pointwise(s1: Seq<RecV>, s2: Seq<RecV>)
    requires
        s1.len() == s2.len(),
        forall|i: int| 0 <= i < s1.len() ==> rec_toks(#[trigger] s1[i]) == rec_toks(s2[i]),
    ensures
        recs_toks(s1) == recs_toks(s2),
    decreases s1.len(),
{
    if s1.len() > 0 {
        assert(rec_toks(s1[0]) == rec_toks(s2[0]));
        assert forall|i: int|
            0 <= i < s1.drop_first().len() implies rec_toks(
            #[trigger] s1.drop_first()[i]) == rec_toks(s2.drop_first()[i]) by {
            assert(s1.drop_first()[i] == s1[i + 1]);
            assert(s2.drop_first()[i] == s2[i + 1]);
        }
        lemma_recs_toks_pointwise(s1.drop_first(), s2.drop_first());
    }
}

/// A record stream's token form splits at any record boundary.
proof fn lemma_recs_toks_take_skip(s: Seq<RecV>, i: int)
    requires
        0 <= i <= s.len(),
    ensures
        recs_toks(s) == recs_toks(s.take(i)) + recs_toks(s.skip(i)),
    decreases i,
{
    if i == 0 {
        assert(s.take(0) =~= Seq::<RecV>::empty());
        assert(s.skip(0) =~= s);
        assert(recs_toks(Seq::<RecV>::empty()) + recs_toks(s) =~= recs_toks(s));
    } else {
        assert(s.len() >= 1);
        assert(recs_toks(s) == rec_toks(s[0]) + recs_toks(s.drop_first()));
        lemma_recs_toks_take_skip(s.drop_first(), i - 1);
        assert(s.take(i)[0] == s[0]);
        assert(s.take(i).drop_first() =~= s.drop_first().take(i - 1));
        assert(recs_toks(s.take(i)) == rec_toks(s[0]) + recs_toks(s.drop_first().take(i - 1)));
        assert(s.skip(i) =~= s.drop_first().skip(i - 1));
        vstd::seq_lib::lemma_concat_associative(
            rec_toks(s[0]),
            recs_toks(s.drop_first().take(i - 1)),
            recs_toks(s.drop_first().skip(i - 1)),
        );
    }
}

/// The index of the first record bearing this marker.
pub open spec fn marker_idx(s: Seq<RecV>, m: u64) -> int
    decreases s.len(),
{
    if s.len() == 0 {
        0
    } else if s[0].marker == m {
        0
    } else {
        1 + marker_idx(s.drop_first(), m)
    }
}

proof fn lemma_marker_idx(s: Seq<RecV>, m: u64)
    requires
        exists|j: int| 0 <= j < s.len() && (#[trigger] s[j]).marker == m,
    ensures
        0 <= marker_idx(s, m) < s.len(),
        s[marker_idx(s, m)].marker == m,
        forall|j: int| 0 <= j < marker_idx(s, m) ==> (#[trigger] s[j]).marker != m,
    decreases s.len(),
{
    if s.len() > 0 && s[0].marker != m {
        let j0 = choose|j: int| 0 <= j < s.len() && (#[trigger] s[j]).marker == m;
        assert(s.drop_first()[j0 - 1].marker == m);
        lemma_marker_idx(s.drop_first(), m);
        assert forall|j: int| 0 <= j < marker_idx(s, m) implies (#[trigger] s[j]).marker != m by {
            if j > 0 {
                assert(s.drop_first()[j - 1].marker != m);
                assert(s[j] == s.drop_first()[j - 1]);
            }
        }
    }
}

/// A wire arena the decoder accepts: well-formed records, unique
/// markers below the allocator ceiling, every carry owner the marker
/// of some player record, and no more records than the validation
/// bound allows.
pub open spec fn wire_ok(wire: Seq<RecV>) -> bool {
    &&& wire.len() <= 100000
    &&& (forall|k: int|
        0 <= k < wire.len() ==> rec_wf(#[trigger] wire[k]) && wire[k].marker < u64::MAX)
    &&& (forall|a: int, b: int|
        0 <= a < b < wire.len() ==> (#[trigger] wire[a]).marker != (#[trigger] wire[b]).marker)
    &&& (forall|k: int|
        0 <= k < wire.len() ==> ((#[trigger] wire[k]).carried_by matches Option::Some(c)
            ==> exists|j: int|
            0 <= j < wire.len() && (#[trigger] wire[j]).marker == c.owner && wire[j].player_info
                is Some))
}

/// The record a wire arena yields at position `i` after decoding:
/// its id is its position and its carry owner is the position of the
/// owner's marker.
pub open spec fn remap_rec(wire: Seq<RecV>, i: int) -> RecV {
    RecV {
        id: i as u64,
        carried_by: match wire[i].carried_by {
            Option::Some(c) => Option::Some(
                CarriedBy { owner: marker_idx(wire, c.owner) as u64 },
            ),
            Option::None => Option::None,
        },
        ..wire[i]
    }
}

/// Law: the snapshot round trip.  A well-formed arena with live
/// carry owners and no more records than the validation bound allows
/// has an acceptable wire form, so the decoder owes success on the
/// encoder's output; and what it rebuilds carries identical
/// component values record for record, with identity remapped
/// through markers: each record keeps its marker, and a carry
/// relation points at the record holding its old owner's marker.
pub proof fn lemma_snapshot_round_trip(w: Seq<RecV>, next_id: u64, next_marker: u64)
    requires
        w.len() <= 100000,
        crate::world::ids_unique(w),
        crate::world::markers_unique(w),
        forall|i: int|
            0 <= i < w.len() ==> rec_wf(#[trigger] w[i]) && w[i].id < next_id && w[i].marker
                < next_marker,
        carries_ok(w),
    ensures
        wire_ok(wire_of(w)),
        forall|i: int|
            0 <= i < w.len() ==> ({
                let rr = remap_rec(wire_of(w), i);
                &&& rr.marker == (#[trigger] w[i]).marker
                &&& rr.player_info == w[i].player_info
                &&& rr.location == w[i].location
                &&& rr.fps_tracker == w[i].fps_tracker
                &&& rr.renderable == w[i].renderable
                &&& rr.text_renderable == w[i].text_renderable
                &&& rr.chat_renderable == w[i].chat_renderable
                &&& rr.graphic_renderable == w[i].graphic_renderable
                &&& rr.graphic_animatable == w[i].graphic_animatable
                &&& rr.wants_to_move_to == w[i].wants_to_move_to
                &&& rr.disappearing == w[i].disappearing
                &&& rr.crab_ai == w[i].crab_ai
                &&& rr.wants_to_be_picked_up == w[i].wants_to_be_picked_up
                &&& rr.wants_to_stab == w[i].wants_to_stab
                &&& (w[i].carried_by matches Option::Some(c) ==> (rr.carried_by matches
                Option::Some(c2) && 0 <= c2.owner < w.len() && wire_of(w)[c2.owner as int].marker
                    == rec_of(w, c.owner).marker))
                &&& (w[i].carried_by is None ==> rr.carried_by is None)
            }),
{
    let wire = wire_of(w);
    assert forall|k: int|
        0 <= k < wire.len() implies rec_wf(#[trigger] wire[k]) && wire[k].marker < u64::MAX by {
        assert(rec_wf(w[k]));
        assert(w[k].marker < next_marker);
    }
    assert forall|k: int|
        0 <= k < wire.len() implies ((#[trigger] wire[k]).carried_by matches Option::Some(c)
        ==> exists|j: int|
            0 <= j < wire.len() && (#[trigger] wire[j]).marker == c.owner && wire[j].player_info
                is Some) by {
        if wire[k].carried_by is Some {
            let c0 = w[k].carried_by->Some_0;
            crate::world::lemma_idx_of(w, c0.owner);
            let j = crate::world::idx_of(w, c0.owner);
            assert(wire[j].marker == w[j].marker);
            assert(wire[j].player_info == w[j].player_info);
            assert(wire[k].carried_by->Some_0.owner == w[j].marker);
        }
    }
    assert(wire_ok(wire));
    assert forall|i: int|
        0 <= i < w.len() && (#[trigger] w[i]).carried_by is Some implies ({
        let rr = remap_rec(wire, i);
        rr.carried_by matches Option::Some(c2) && 0 <= c2.owner < w.len() && wire[c2.owner as int].marker
            == rec_of(w, w[i].carried_by->Some_0.owner).marker
    }) by {
        let c0 = w[i].carried_by->Some_0;
        crate::world::lemma_idx_of(w, c0.owner);
        let j = crate::world::idx_of(w, c0.owner);
        let m = w[j].marker;
        assert(wire[i].carried_by->Some_0.owner == m);
        assert(wire[j].marker == m);
        lemma_marker_idx(wire, m);
        let mx = marker_idx(wire, m);
        if mx != j {
            assert(wire[mx].marker == wire[j].marker);
        }
    }
}

/// Every wire arena this token stream encodes has been parsed
/// record for record.
pub open spec fn wire_parsed(ts: Seq<u64>, recs: Seq<EntityRecord>) -> bool {
    forall|wire: Seq<RecV>|
        #![trigger world_toks(wire)]
        (ts == world_toks(wire) && wire_ok(wire)) ==> (recs.len() == wire.len() && (forall|k: int|
            0 <= k < wire.len() ==> (#[trigger] recs[k])@ == (RecV { id: 0, ..wire[k] })))
}

/// Rebuild a world from its token form: parse every record, check
/// the world-level invariants, and remap carry owners from markers to
/// the fresh local ids.  Malformed or inconsistent input yields
/// `None`; a rebuilt world is always well formed, with its marker
/// allocator resynchronized past every restored marker, and
/// re-encodes to exactly the tokens it was read from.  As a
/// validation bound on untrusted input, a snapshot of more than one
/// hundred thousand entities is refused; within that bound, success
/// is owed on every acceptable wire form, with each record rebuilt
/// at a fresh id and its carry owner remapped through markers.
#[verifier::rlimit(100)]
#[verifier::spinoff_prover]
pub fn decode_world(ts: &Vec<u64>) -> (r: Option<World>)
    ensures
        r matches Option::Some(w) ==> w.wf() && carries_ok(w@) && w.pending@.len() == 0
            && world_toks(wire_of(w@)) == ts@,
        forall|wire: Seq<RecV>|
            #![trigger world_toks(wire)]
            (ts@ == world_toks(wire) && wire_ok(wire)) ==> (r matches Option::Some(w) && w@
                == Seq::new(wire.len(), |i: int| remap_rec(wire, i))),
{
    proof {
        assert forall|wire: Seq<RecV>|
            #![trigger world_toks(wire)]
            (ts@ == world_toks(wire) && wire_ok(wire)) implies (ts@.len() >= 1 && ts@[0]
            == wire.len() as u64 && ts@.subrange(1, ts@.len() as int) == recs_toks(wire)) by {
            assert(world_toks(wire)[0] == wire.len() as u64);
            assert(ts@.subrange(1, ts@.len() as int) =~= recs_toks(wire));
        }
    }
    if ts.len() == 0 {
        return Option::None;
    }
    let cnt64 = ts[0];
    if cnt64 > 100000 {
        return Option::None;
    }
    let cnt = cnt64 as usize;
    let mut recs: Vec<EntityRecord> = Vec::new();
    let mut pos: usize = 1;
    let mut i: usize = 0;
    proof {
        assert(ts@.subrange(1, 1) =~= recs_toks(Seq::new(recs@.len(), |j: int| recs@[j]@)));
    }
    while i < cnt
        invariant
            i <= cnt,
            cnt <= 100000,
            cnt64 == cnt as u64,
            ts@.len() >= 1,
            cnt64 == ts@[0],
            1 <= pos <= ts@.len(),
            recs@.len() == i,
            forall|j: int|
                0 <= j < i ==> rec_wf((#[trigger] recs@[j])@) && recs@[j]@.id == 0,
            ts@.subrange(1, pos as int) == recs_toks(
                Seq::new(recs@.len(), |j: int| recs@[j]@),
            ),
            forall|wire: Seq<RecV>|
                #![trigger world_toks(wire)]
                (ts@ == world_toks(wire) && wire_ok(wire)) ==> (cnt == wire.len() && i
                    <= wire.len() && pos == 1 + recs_toks(wire.take(i as int)).len() && (forall|
                    k: int,
                |
                    0 <= k < i ==> (#[trigger] recs@[k])@ == (RecV { id: 0, ..wire[k] }))),
        decreases cnt - i,
    {
        proof {
            // a stream that encodes a wire arena owes the next record
            assert forall|wire: Seq<RecV>|
                #![trigger world_toks(wire)]
                (ts@ == world_toks(wire) && wire_ok(wire)) implies (pos + rec_toks(
                wire[i as int],
            ).len() <= ts@.len() && ts@.subrange(
                pos as int,
                pos + rec_toks(wire[i as int]).len(),
            ) == rec_toks(wire[i as int]) && rec_wf(wire[i as int])) by {
                assert(ts@.subrange(1, ts@.len() as int) =~= recs_toks(wire));
                lemma_recs_toks_take_skip(wire, i as int);
                lemma_tok_split(
                    ts@,
                    1,
                    recs_toks(wire.take(i as int)),
                    recs_toks(wire.skip(i as int)),
                );
                let rest = wire.skip(i as int);
                assert(rest.len() > 0);
                assert(recs_toks(rest) == rec_toks(rest[0]) + recs_toks(rest.drop_first()));
                lemma_tok_split(ts@, pos as int, rec_toks(rest[0]), recs_toks(rest.drop_first()));
                assert(rest[0] == wire[i as int]);
            }
        }
        let (rec, p2) = match parse_rec(ts, pos) {
            Option::Some(rp) => rp,
            Option::None => {
                return Option::None;
            },
        };
        let ghost prevv = Seq::new(recs@.len(), |j: int| recs@[j]@);
        recs.push(rec);
        proof {
            let nowv = Seq::new(recs@.len(), |j: int| recs@[j]@);
            assert(nowv =~= prevv.push(rec@));
            lemma_recs_toks_snoc(prevv, rec@);
            lemma_tok_join(ts@, 1, pos as int, p2 as int);
            assert forall|wire: Seq<RecV>|
                #![trigger world_toks(wire)]
                (ts@ == world_toks(wire) && wire_ok(wire)) implies (p2 == 1 + recs_toks(
                wire.take(i as int + 1),
            ).len() && (forall|k: int|
                0 <= k < i as int + 1 ==> (#[trigger] recs@[k])@ == (RecV {
                    id: 0,
                    ..wire[k]
                }))) by {
                assert(wire.take(i as int + 1) =~= wire.take(i as int).push(wire[i as int]));
                lemma_recs_toks_snoc(wire.take(i as int), wire[i as int]);
            }
        }
        pos = p2;
        i = i + 1;
    }
    proof {
        assert forall|wire: Seq<RecV>|
            #![trigger world_toks(wire)]
            (ts@ == world_toks(wire) && wire_ok(wire)) implies (pos == ts@.len()
            && wire_parsed(ts@, recs@)) by {
            assert(wire.take(cnt as int) =~= wire);
            assert(ts@.subrange(1, ts@.len() as int) =~= recs_toks(wire));
        }
    }
    if pos != ts.len() {
        return Option::None;
    }
    let n = recs.len();
    // markers must be unique, and the allocator must clear them all
    let mut max_marker: u64 = 0;
    let mut i: usize = 0;
    while i < n
        invariant
            n == recs@.len(),
            i <= n,
            wire_parsed(ts@, recs@),
            forall|a: int, b: int|
                0 <= a < b < i ==> (#[trigger] recs@[a])@.marker != (#[trigger] recs@[b])@.marker,
            forall|a: int| 0 <= a < i ==> (#[trigger] recs@[a])@.marker <= max_marker,
            max_marker == 0 || exists|a: int|
                0 <= a < i && (#[trigger] recs@[a])@.marker == max_marker,
        decreases n - i,
    {
        let mi = recs[i].marker;
        let mut j: usize = 0;
        while j < i
            invariant
                n == recs@.len(),
                i < n,
                j <= i,
                wire_parsed(ts@, recs@),
                mi == recs@[i as int]@.marker,
                forall|b: int| 0 <= b < j ==> (#[trigger] recs@[b])@.marker != mi,
            decreases i - j,
        {
            if recs[j].marker == mi {
                proof {
                    assert forall|wire: Seq<RecV>|
                        #![trigger world_toks(wire)]
                        (ts@ == world_toks(wire) && wire_ok(wire)) implies false by {
                        assert(recs@[j as int]@ == (RecV { id: 0, ..wire[j as int] }));
                        assert(recs@[i as int]@ == (RecV { id: 0, ..wire[i as int] }));
                        assert(wire[j as int].marker != wire[i as int].marker);
                    }
                }
                return Option::None;
            }
            j = j + 1;
        }
        if mi > max_marker {
            max_marker = mi;
        }
        i = i + 1;
    }
    if max_marker == u64::MAX {
        proof {
            assert forall|wire: Seq<RecV>|
                #![trigger world_toks(wire)]
                (ts@ == world_toks(wire) && wire_ok(wire)) implies false by {
                let a = choose|a: int|
                    0 <= a < n && (#[trigger] recs@[a])@.marker == max_marker;
                assert(recs@[a]@ == (RecV { id: 0, ..wire[a] }));
                assert(wire[a].marker < u64::MAX);
            }
        }
        return Option::None;
    }
    // resolve carry owners: marker to index, owner must be a player
    let mut owners: Vec<Option<usize>> = Vec::new();
    let mut i: usize = 0;
    while i < n
        invariant
            n == recs@.len(),
            i <= n,
            owners@.len() == i,
            wire_parsed(ts@, recs@),
            forall|a: int|
                0 <= a < i ==> match #[trigger] owners@[a] {
                    Option::Some(k) => k < n && recs@[a]@.carried_by is Some && (
                    recs@[a]@.carried_by matches Option::Some(c) ==> recs@[k as int]@.marker
                        == c.owner) && recs@[k as int]@.player_info is Some,
                    Option::None => recs@[a]@.carried_by is None,
                },
            forall|wire: Seq<RecV>|
                #![trigger world_toks(wire)]
                (ts@ == world_toks(wire) && wire_ok(wire)) ==> (forall|a: int|
                    0 <= a < i ==> (match (#[trigger] wire[a]).carried_by {
                        Option::Some(c) => owners@[a] matches Option::Some(k) && k as int
                            == marker_idx(wire, c.owner),
                        Option::None => owners@[a] is None,
                    })),
        decreases n - i,
    {
        let cb = recs[i].carried_by;
        match cb {
            Option::Some(c) => {
                let mut found: Option<usize> = Option::None;
                let mut j: usize = 0;
                while j < n
                    invariant
                        n == recs@.len(),
                        i < n,
                        j <= n,
                        wire_parsed(ts@, recs@),
                        recs@[i as int]@.carried_by == Option::Some(c),
                        match found {
                            Option::Some(k) => k < n && recs@[k as int]@.marker == c.owner
                                && recs@[k as int]@.player_info is Some,
                            Option::None => forall|jj: int|
                                0 <= jj < j ==> !((#[trigger] recs@[jj])@.marker == c.owner
                                    && recs@[jj]@.player_info is Some),
                        },
                    decreases n - j,
                {
                    if found.is_none() {
                        if recs[j].marker == c.owner && recs[j].player_info.is_some() {
                            found = Option::Some(j);
                        }
                    }
                    j = j + 1;
                }
                match found {
                    Option::Some(k) => {
                        owners.push(Option::Some(k));
                        proof {
                            assert forall|wire: Seq<RecV>|
                                #![trigger world_toks(wire)]
                                (ts@ == world_toks(wire) && wire_ok(wire)) implies (k as int
                                == marker_idx(wire, c.owner)) by {
                                assert(recs@[i as int]@ == (RecV { id: 0, ..wire[i as int] }));
                                assert(wire[i as int].carried_by == Option::Some(c));
                                let w0 = choose|j0: int|
                                    0 <= j0 < wire.len() && (#[trigger] wire[j0]).marker
                                        == c.owner && wire[j0].player_info is Some;
                                lemma_marker_idx(wire, c.owner);
                                let mx = marker_idx(wire, c.owner);
                                if mx != w0 {
                                    assert(wire[mx].marker == wire[w0].marker);
                                }
                                assert(recs@[k as int]@ == (RecV { id: 0, ..wire[k as int] }));
                                assert(wire[k as int].marker == c.owner);
                                if k as int != mx {
                                    assert(wire[k as int].marker == wire[mx].marker);
                                }
                            }
                        }
                    },
                    Option::None => {
                        proof {
                            assert forall|wire: Seq<RecV>|
                                #![trigger world_toks(wire)]
                                (ts@ == world_toks(wire) && wire_ok(wire)) implies false by {
                                assert(recs@[i as int]@ == (RecV { id: 0, ..wire[i as int] }));
                                assert(wire[i as int].carried_by == Option::Some(c));
                                let w0 = choose|j0: int|
                                    0 <= j0 < wire.len() && (#[trigger] wire[j0]).marker
                                        == c.owner && wire[j0].player_info is Some;
                                assert(recs@[w0]@ == (RecV { id: 0, ..wire[w0] }));
                                assert(recs@[w0]@.marker == c.owner);
                                assert(recs@[w0]@.player_info is Some);
                            }
                        }
                        return Option::None;
                    },
                }
            },
            Option::None => {
                owners.push(Option::None);
            },
        }
        i = i + 1;
    }
    // assign fresh ids, keep wire markers, remap owners to the ids
    let mut ents: Vec<EntityRecord> = Vec::new();
    let mut i: usize = 0;
    while i < n
        invariant
            n == recs@.len(),
            n <= 100000,
            owners@.len() == n,
            i <= n,
            ents@.len() == i,
            forall|a: int, b: int|
                0 <= a < b < n ==> (#[trigger] recs@[a])@.marker != (#[trigger] recs@[b])@.marker,
            forall|a: int| 0 <= a < n ==> (#[trigger] recs@[a])@.marker <= max_marker,
            forall|a: int| 0 <= a < n ==> rec_wf((#[trigger] recs@[a])@),
            forall|a: int|
                0 <= a < n ==> match #[trigger] owners@[a] {
                    Option::Some(k) => k < n && recs@[a]@.carried_by is Some
                        && recs@[k as int]@.player_info is Some,
                    Option::None => recs@[a]@.carried_by is None,
                },
            forall|a: int|
                0 <= a < i ==> (#[trigger] ents@[a])@ == (RecV {
                    id: a as u64,
                    carried_by: match owners@[a] {
                        Option::Some(k) => Option::Some(CarriedBy { owner: k as u64 }),
                        Option::None => Option::None,
                    },
                    ..recs@[a]@
                }),
        decreases n - i,
    {
        let mut rec = crate::world::clone_record(&recs[i]);
        rec.id = i as u64;
        match owners[i] {
            Option::Some(k) => {
                rec.carried_by = Option::Some(CarriedBy { owner: k as u64 });
            },
            Option::None => {},
        }
        ents.push(rec);
        i = i + 1;
    }
    let w = World {
        ents,
        pending: Vec::new(),
        next_id: n as u64,
        next_marker: max_marker + 1,
    };
    proof {
        let wv = w@;
        assert forall|a: int| 0 <= a < n implies (#[trigger] wv[a]).id == a as u64
            && wv[a].marker == recs@[a]@.marker && rec_wf(wv[a]) by {
            assert(wv[a] == w.ents@[a]@);
        }
        assert(crate::world::ids_unique(wv));
        assert(crate::world::markers_unique(wv));
        assert(w.wf());
        assert forall|a: int|
            0 <= a < wv.len() implies ((#[trigger] wv[a]).carried_by matches Option::Some(c)
            ==> has_id(wv, c.owner) && rec_of(wv, c.owner).player_info is Some) by {
            if wv[a].carried_by is Some {
                let c = wv[a].carried_by->Some_0;
                let k = owners@[a]->Some_0;
                assert(c.owner == k as u64);
                assert(wv[k as int].id == c.owner);
                assert(has_id(wv, c.owner));
                lemma_idx_of(wv, c.owner);
                let ix = idx_of(wv, c.owner);
                assert(wv[ix].id == c.owner);
                if ix != k as int {
                    assert(wv[ix].id == ix as u64);
                }
                assert(wv[k as int].player_info is Some ==> rec_of(wv, c.owner).player_info
                    is Some);
                assert(recs@[k as int]@.player_info is Some);
                assert(wv[k as int].player_info == recs@[k as int]@.player_info);
            }
        }
        // the rebuilt world re-encodes to exactly the input: the
        // wire form substitutes every owner id back to the marker it
        // was parsed from
        let pv = Seq::new(recs@.len(), |j: int| recs@[j]@);
        assert forall|a: int|
            0 <= a < wv.len() implies rec_toks(#[trigger] wire_of(wv)[a]) == rec_toks(pv[a]) by {
            assert(wire_of(wv)[a] == wire_rec(wv[a], wv));
            if wv[a].carried_by is Some {
                let c = wv[a].carried_by->Some_0;
                let k = owners@[a]->Some_0;
                lemma_idx_of(wv, c.owner);
                let ix = idx_of(wv, c.owner);
                if ix != k as int {
                    assert(wv[ix].id == ix as u64);
                }
                assert(rec_of(wv, c.owner) == wv[k as int]);
                assert(wv[k as int].marker == recs@[k as int]@.marker);
                assert(wire_rec(wv[a], wv).carried_by == pv[a].carried_by);
                assert(carried_toks(wire_rec(wv[a], wv).carried_by) == carried_toks(
                    pv[a].carried_by,
                ));
            } else {
                assert(wire_rec(wv[a], wv) == wv[a]);
            }
        }
        assert(wire_of(wv).len() == pv.len());
        lemma_recs_toks_pointwise(wire_of(wv), pv);
        assert(ts@ =~= seq![ts@[0]] + ts@.subrange(1, ts@.len() as int));
        assert(ts@[0] == wv.len() as u64);
        assert(world_toks(wire_of(wv)) == ts@);
    }
    Option::Some(w)
}

} // verus!

verus! {

/// The token of one tile.
pub open spec fn tile_tok(t: TileType) -> u64 {
    match t {
        TileType::Void => 0,
        TileType::Water => 1,
        TileType::Sand => 2,
        TileType::Grass => 3,
    }
}

/// The tokens of one column of tiles.
pub open spec fn row_toks(row: Seq<TileType>) -> Seq<u64> {
    row.map_values(|t: TileType| tile_tok(t))
}

/// The tokens of a whole grid, column after column.
pub open spec fn rows_toks(g: Seq<Seq<TileType>>) -> Seq<u64>
    decreases g.len(),
{
    if g.len() == 0 {
        Seq::empty()
    } else {
        row_toks(g[0]) + rows_toks(g.drop_first())
    }
}

/// The token form of the terrain: its dimensions, then every tile.
pub open spec fn tilemap_toks(g: Seq<Seq<TileType>>, w: int, h: int) -> Seq<u64> {
    seq![w as u64, h as u64] + rows_toks(g)
}

proof fn lemma_rows_toks_snoc(s: Seq<Seq<TileType>>, r: Seq<TileType>)
    ensures
        rows_toks(s.push(r)) == rows_toks(s) + row_toks(r),
    decreases s.len(),
{
    if s.len() == 0 {
        assert(s.push(r)[0] == r);
        assert(s.push(r).drop_first() =~= Seq::<Seq<TileType>>::empty());
        assert(rows_toks(s.push(r)) == row_toks(r) + rows_toks(Seq::<Seq<TileType>>::empty()));
        assert(row_toks(r) + Seq::<u64>::empty() =~= row_toks(r));
        assert(rows_toks(s) + row_toks(r) =~= row_toks(r));
    } else {
        assert(s.push(r)[0] == s[0]);
        assert(s.push(r).drop_first() =~= s.drop_first().push(r));
        lemma_rows_toks_snoc(s.drop_first(), r);
        assert(rows_toks(s.push(r)) =~= rows_toks(s) + row_toks(r));
    }
}

/// Convert the terrain into its transmissible text form.
pub fn serialize_map(map: &TileMap) -> (r: String)
    requires
        map.wf(),
    ensures
        r@ == enc_tokens(
            tilemap_toks(
                crate::terrain::grid_of(map.tiles@),
                map.width as int,
                map.height as int,
            ),
        ),
{
    let ghost g = crate::terrain::grid_of(map.tiles@);
    let mut out: Vec<u64> = Vec::new();
    out.push(map.width as u64);
    out.push(map.height as u64);
    proof {
        assert(g.take(0) =~= Seq::<Seq<TileType>>::empty());
        assert(out@ =~= seq![map.width as u64, map.height as u64] + rows_toks(g.take(0)));
    }
    let mut x: usize = 0;
    while x < map.tiles.len()
        invariant
            map.wf(),
            g == crate::terrain::grid_of(map.tiles@),
            x <= map.tiles@.len(),
            g.len() == map.tiles@.len(),
            out@ == seq![map.width as u64, map.height as u64] + rows_toks(g.take(x as int)),
        decreases map.tiles@.len() - x,
    {
        let ghost base = out@;
        let row = &map.tiles[x];
        let mut y: usize = 0;
        proof {
            assert(row@.map_values(|t: TileType| tile_tok(t)).take(0) =~= Seq::<u64>::empty());
            assert(out@ =~= base + row_toks(g[x as int]).take(0));
            assert(g[x as int] == row@);
        }
        while y < row.len()
            invariant
                g[x as int] == row@,
                y <= row@.len(),
                out@ == base + row_toks(row@).take(y as int),
            decreases row@.len() - y,
        {
            let t: u64 = match row[y] {
                TileType::Void => 0,
                TileType::Water => 1,
                TileType::Sand => 2,
                TileType::Grass => 3,
            };
            out.push(t);
            proof {
                assert(t == tile_tok(row@[y as int]));
                assert(out@ =~= base + row_toks(row@).take(y as int + 1));
            }
            y = y + 1;
        }
        proof {
            assert(row_toks(row@).take(row@.len() as int) =~= row_toks(row@));
            assert(g.take(x as int).push(g[x as int]) =~= g.take(x as int + 1));
            lemma_rows_toks_snoc(g.take(x as int), g[x as int]);
            vstd::seq_lib::lemma_concat_associative(
                seq![map.width as u64, map.height as u64],
                rows_toks(g.take(x as int)),
                row_toks(g[x as int]),
            );
        }
        x = x + 1;
    }
    proof {
        assert(g.take(g.len() as int) =~= g);
    }
    tokens_to_text(&out)
}

/// A tile stream's token form splits at any row boundary.
proof fn lemma_rows_toks_take_skip(g: Seq<Seq<TileType>>, i: int)
    requires
        0 <= i <= g.len(),
    ensures
        rows_toks(g) == rows_toks(g.take(i)) + rows_toks(g.skip(i)),
    decreases i,
{
    if i == 0 {
        assert(g.take(0) =~= Seq::<Seq<TileType>>::empty());
        assert(g.skip(0) =~= g);
        assert(rows_toks(Seq::<Seq<TileType>>::empty()) + rows_toks(g) =~= rows_toks(g));
    } else {
        assert(g.len() >= 1);
        assert(rows_toks(g) == row_toks(g[0]) + rows_toks(g.drop_first()));
        lemma_rows_toks_take_skip(g.drop_first(), i - 1);
        assert(g.take(i)[0] == g[0]);
        assert(g.take(i).drop_first() =~= g.drop_first().take(i - 1));
        assert(rows_toks(g.take(i)) == row_toks(g[0]) + rows_toks(g.drop_first().take(i - 1)));
        assert(g.skip(i) =~= g.drop_first().skip(i - 1));
        vstd::seq_lib::lemma_concat_associative(
            row_toks(g[0]),
            rows_toks(g.drop_first().take(i - 1)),
            rows_toks(g.drop_first().skip(i - 1)),
        );
    }
}

/// Rebuild the terrain from its token form, refusing inconsistent
/// dimensions; the consumed tokens are exactly the rebuilt map's
/// token form.
#[verifier::rlimit(100)]
#[verifier::spinoff_prover]
pub fn decode_map(ts: &Vec<u64>, pos0: usize) -> (r: Option<(TileMap, usize)>)
    requires
        pos0 <= ts@.len(),
    ensures
        r matches Option::Some(mp) ==> mp.0.wf() && pos0 <= mp.1 <= ts@.len() && ts@.subrange(
            pos0 as int,
            mp.1 as int,
        ) == tilemap_toks(
            crate::terrain::grid_of(mp.0.tiles@),
            mp.0.width as int,
            mp.0.height as int,
        ),
        forall|g: Seq<Seq<TileType>>, gw: int, gh: int, e: int|
            #![trigger tilemap_toks(g, gw, gh), ts@.subrange(pos0 as int, e)]
            (crate::terrain::MIN_DIM <= gw <= crate::terrain::MAX_DIM && crate::terrain::MIN_DIM
                <= gh <= crate::terrain::MAX_DIM && crate::terrain::grid_wf(g, gw, gh) && pos0
                + tilemap_toks(g, gw, gh).len() == e && e <= ts@.len() && ts@.subrange(
                pos0 as int,
                e,
            ) == tilemap_toks(g, gw, gh)) ==> (r matches Option::Some(mp)
                && crate::terrain::grid_of(mp.0.tiles@) == g && mp.0.width == gw && mp.0.height
                == gh && mp.1 == e),
{
    proof {
        assert forall|g: Seq<Seq<TileType>>, gw: int, gh: int, e: int|
            #![trigger tilemap_toks(g, gw, gh), ts@.subrange(pos0 as int, e)]
            (crate::terrain::MIN_DIM <= gw <= crate::terrain::MAX_DIM && crate::terrain::MIN_DIM
                <= gh <= crate::terrain::MAX_DIM && crate::terrain::grid_wf(g, gw, gh) && pos0
                + tilemap_toks(g, gw, gh).len() == e && e <= ts@.len() && ts@.subrange(
                pos0 as int,
                e,
            ) == tilemap_toks(g, gw, gh)) implies (pos0 + 2 <= ts@.len() && ts@[pos0 as int]
            == gw as u64 && ts@[pos0 as int + 1] == gh as u64 && ts@.subrange(pos0 as int + 2, e)
            == rows_toks(g)) by {
            lemma_tok_split(ts@, pos0 as int, seq![gw as u64, gh as u64], rows_toks(g));
            assert(ts@.subrange(pos0 as int, pos0 as int + 2)[0] == ts@[pos0 as int]);
            assert(ts@.subrange(pos0 as int, pos0 as int + 2)[1] == ts@[pos0 as int + 1]);
        }
    }
    if ts.len() - pos0 < 2 {
        return Option::None;
    }
    let w64 = ts[pos0];
    let h64 = ts[pos0 + 1];
    if w64 < (crate::terrain::MIN_DIM as u64) || w64 > (crate::terrain::MAX_DIM as u64) {
        return Option::None;
    }
    if h64 < (crate::terrain::MIN_DIM as u64) || h64 > (crate::terrain::MAX_DIM as u64) {
        return Option::None;
    }
    proof {
        assert forall|g: Seq<Seq<TileType>>, gw: int, gh: int, e: int|
            #![trigger tilemap_toks(g, gw, gh), ts@.subrange(pos0 as int, e)]
            (crate::terrain::MIN_DIM <= gw <= crate::terrain::MAX_DIM && crate::terrain::MIN_DIM
                    <= gh <= crate::terrain::MAX_DIM && crate::terrain::grid_wf(g, gw, gh) && pos0
                    + tilemap_toks(g, gw, gh).len() == e && e <= ts@.len() && ts@.subrange(
                    pos0 as int,
                    e,
                ) == tilemap_toks(g, gw, gh)) implies (w64 == gw as u64 && h64 == gh as u64) by {
            lemma_tok_split(ts@, pos0 as int, seq![gw as u64, gh as u64], rows_toks(g));
            assert(ts@.subrange(pos0 as int, pos0 as int + 2)[0] == ts@[pos0 as int]);
            assert(ts@.subrange(pos0 as int, pos0 as int + 2)[1] == ts@[pos0 as int + 1]);
        }
    }
    let w = w64 as usize;
    let h = h64 as usize;
    let body = pos0 + 2;
    let mut pos = body;
    let mut tiles: Vec<Vec<TileType>> = Vec::new();
    let mut x: usize = 0;
    proof {
        assert(ts@.subrange(body as int, body as int) =~= rows_toks(
            crate::terrain::grid_of(tiles@),
        ));
        assert(crate::terrain::grid_of(tiles@) =~= Seq::<Seq<TileType>>::empty());
    }
    while x < w
        invariant
            3 <= w <= 10000,
            3 <= h <= 10000,
            x <= w,
            pos0 + 2 == body,
            body <= pos <= ts@.len(),
            w64 == w as u64 && h64 == h as u64,
            pos0 < ts@.len() && ts@[pos0 as int] == w64 && ts@[pos0 as int + 1] == h64,
            tiles@.len() == x,
            forall|a: int| 0 <= a < x ==> (#[trigger] tiles@[a])@.len() == h,
            ts@.subrange(body as int, pos as int) == rows_toks(crate::terrain::grid_of(tiles@)),
            forall|g: Seq<Seq<TileType>>, gw: int, gh: int, e: int|
                #![trigger tilemap_toks(g, gw, gh), ts@.subrange(pos0 as int, e)]
                (crate::terrain::MIN_DIM <= gw <= crate::terrain::MAX_DIM && crate::terrain::MIN_DIM
                    <= gh <= crate::terrain::MAX_DIM && crate::terrain::grid_wf(g, gw, gh) && pos0
                    + tilemap_toks(g, gw, gh).len() == e && e <= ts@.len() && ts@.subrange(
                    pos0 as int,
                    e,
                ) == tilemap_toks(g, gw, gh)) ==> (gw == w as int && gh == h as int && pos == body + rows_toks(
                    g.take(x as int),
                ).len() && (forall|a: int| 0 <= a < x ==> (#[trigger] tiles@[a])@ == g[a])),
        decreases w - x,
    {
        proof {
            // a stream that encodes a grid owes the next row of tiles
            assert forall|g: Seq<Seq<TileType>>, gw: int, gh: int, e: int|
                #![trigger tilemap_toks(g, gw, gh), ts@.subrange(pos0 as int, e)]
                (crate::terrain::MIN_DIM <= gw <= crate::terrain::MAX_DIM && crate::terrain::MIN_DIM
                    <= gh <= crate::terrain::MAX_DIM && crate::terrain::grid_wf(g, gw, gh) && pos0
                    + tilemap_toks(g, gw, gh).len() == e && e <= ts@.len() && ts@.subrange(
                    pos0 as int,
                    e,
                ) == tilemap_toks(g, gw, gh)) implies (pos + gh <= ts@.len() && (forall|b: int|
                    0 <= b < gh ==> ts@[pos + b] == tile_tok(#[trigger] g[x as int][b]))) by {
                lemma_tok_split(ts@, pos0 as int, seq![gw as u64, gh as u64], rows_toks(g));
                lemma_rows_toks_take_skip(g, x as int);
                lemma_tok_split(
                    ts@,
                    body as int,
                    rows_toks(g.take(x as int)),
                    rows_toks(g.skip(x as int)),
                );
                let rest = g.skip(x as int);
                assert(rest.len() > 0);
                assert(rows_toks(rest) == row_toks(rest[0]) + rows_toks(rest.drop_first()));
                lemma_tok_split(ts@, pos as int, row_toks(rest[0]), rows_toks(rest.drop_first()));
                assert(rest[0] == g[x as int]);
                assert forall|b: int|
                    0 <= b < gh implies ts@[pos + b] == tile_tok(#[trigger] g[x as int][b]) by {
                    assert(ts@.subrange(pos as int, pos + row_toks(g[x as int]).len() as int)[b]
                        == ts@[pos + b]);
                    assert(row_toks(g[x as int])[b] == tile_tok(g[x as int][b]));
                }
            }
        }
        let ghost row_start = pos;
        let mut row: Vec<TileType> = Vec::new();
        let mut y: usize = 0;
        while y < h
            invariant
                3 <= h <= 10000,
                x < w,
                y <= h,
                row_start <= pos <= ts@.len(),
                pos == row_start + y,
                row@.len() == y,
                forall|b: int|
                    0 <= b < y ==> ts@[row_start + b] == tile_tok(#[trigger] row@[b]),
                forall|b: int|
                    0 <= b < y ==> (forall|t2: TileType|
                        ts@[row_start + b] == tile_tok(t2) ==> #[trigger] row@[b] == t2),
                forall|g: Seq<Seq<TileType>>, gw: int, gh: int, e: int|
                    #![trigger tilemap_toks(g, gw, gh), ts@.subrange(pos0 as int, e)]
                    (crate::terrain::MIN_DIM <= gw <= crate::terrain::MAX_DIM && crate::terrain::MIN_DIM
                    <= gh <= crate::terrain::MAX_DIM && crate::terrain::grid_wf(g, gw, gh) && pos0
                    + tilemap_toks(g, gw, gh).len() == e && e <= ts@.len() && ts@.subrange(
                    pos0 as int,
                    e,
                ) == tilemap_toks(g, gw, gh)) ==> (gh == h as int && row_start + gh <= ts@.len() && (
                    forall|b: int|
                        0 <= b < gh ==> ts@[row_start + b] == tile_tok(
                            #[trigger] g[x as int][b],
                        ))),
            decreases h - y,
        {
            if pos >= ts.len() {
                return Option::None;
            }
            let t = match ts[pos] {
                0 => TileType::Void,
                1 => TileType::Water,
                2 => TileType::Sand,
                3 => TileType::Grass,
                _ => {
                    proof {
                        assert forall|g: Seq<Seq<TileType>>, gw: int, gh: int, e: int|
                            #![trigger tilemap_toks(g, gw, gh), ts@.subrange(pos0 as int, e)]
                            (crate::terrain::MIN_DIM <= gw <= crate::terrain::MAX_DIM && crate::terrain::MIN_DIM
                    <= gh <= crate::terrain::MAX_DIM && crate::terrain::grid_wf(g, gw, gh) && pos0
                    + tilemap_toks(g, gw, gh).len() == e && e <= ts@.len() && ts@.subrange(
                    pos0 as int,
                    e,
                ) == tilemap_toks(g, gw, gh)) implies false by {
                            assert(ts@[row_start + y] == tile_tok(g[x as int][y as int]));
                            assert(tile_tok(g[x as int][y as int]) <= 3);
                        }
                    }
                    return Option::None;
                },
            };
            row.push(t);
            pos = pos + 1;
            y = y + 1;
        }
        let ghost prevg = crate::terrain::grid_of(tiles@);
        tiles.push(row);
        proof {
            let nowg = crate::terrain::grid_of(tiles@);
            assert(nowg =~= prevg.push(tiles@[x as int]@));
            lemma_rows_toks_snoc(prevg, tiles@[x as int]@);
            assert(ts@.subrange(row_start as int, pos as int) =~= row_toks(tiles@[x as int]@));
            lemma_tok_join(ts@, body as int, row_start as int, pos as int);
            assert forall|g: Seq<Seq<TileType>>, gw: int, gh: int, e: int|
                #![trigger tilemap_toks(g, gw, gh), ts@.subrange(pos0 as int, e)]
                (crate::terrain::MIN_DIM <= gw <= crate::terrain::MAX_DIM && crate::terrain::MIN_DIM
                    <= gh <= crate::terrain::MAX_DIM && crate::terrain::grid_wf(g, gw, gh) && pos0
                    + tilemap_toks(g, gw, gh).len() == e && e <= ts@.len() && ts@.subrange(
                    pos0 as int,
                    e,
                ) == tilemap_toks(g, gw, gh)) implies (pos == body + rows_toks(g.take(x as int + 1)).len()
                && (forall|a: int|
                    0 <= a < x as int + 1 ==> (#[trigger] tiles@[a])@ == g[a])) by {
                lemma_tok_split(ts@, pos0 as int, seq![gw as u64, gh as u64], rows_toks(g));
                lemma_rows_toks_take_skip(g, x as int);
                lemma_tok_split(
                    ts@,
                    body as int,
                    rows_toks(g.take(x as int)),
                    rows_toks(g.skip(x as int)),
                );
                let rest = g.skip(x as int);
                assert(rest.len() > 0);
                assert(rows_toks(rest) == row_toks(rest[0]) + rows_toks(rest.drop_first()));
                lemma_tok_split(ts@, row_start as int, row_toks(rest[0]), rows_toks(
                    rest.drop_first(),
                ));
                assert(rest[0] == g[x as int]);
                assert forall|b: int|
                    0 <= b < h implies tiles@[x as int]@[b] == g[x as int][b] by {
                    assert(ts@.subrange(
                        row_start as int,
                        row_start + row_toks(g[x as int]).len() as int,
                    )[b] == ts@[row_start + b]);
                    assert(row_toks(g[x as int])[b] == tile_tok(g[x as int][b]));
                }
                assert(tiles@[x as int]@ =~= g[x as int]);
                assert(g.take(x as int + 1) =~= g.take(x as int).push(g[x as int]));
                lemma_rows_toks_snoc(g.take(x as int), g[x as int]);
            }
        }
        x = x + 1;
    }
    let m = TileMap { width: w as i32, height: h as i32, tiles };
    proof {
        assert(crate::terrain::grid_of(m.tiles@).len() == w as int);
        assert forall|a: int|
            0 <= a < w as int implies (#[trigger] crate::terrain::grid_of(m.tiles@)[a]).len()
            == h as int by {
            assert(crate::terrain::grid_of(m.tiles@)[a] == m.tiles@[a]@);
        }
        assert(m.wf());
        assert(ts@.subrange(pos0 as int, body as int) =~= seq![w64, h64]);
        lemma_tok_join(ts@, pos0 as int, body as int, pos as int);
        assert(ts@.subrange(pos0 as int, pos as int) == tilemap_toks(
            crate::terrain::grid_of(m.tiles@),
            m.width as int,
            m.height as int,
        ));
        assert forall|g: Seq<Seq<TileType>>, gw: int, gh: int, e: int|
            #![trigger tilemap_toks(g, gw, gh), ts@.subrange(pos0 as int, e)]
            (crate::terrain::MIN_DIM <= gw <= crate::terrain::MAX_DIM && crate::terrain::MIN_DIM
                    <= gh <= crate::terrain::MAX_DIM && crate::terrain::grid_wf(g, gw, gh) && pos0
                    + tilemap_toks(g, gw, gh).len() == e && e <= ts@.len() && ts@.subrange(
                    pos0 as int,
                    e,
                ) == tilemap_toks(g, gw, gh)) implies (crate::terrain::grid_of(m.tiles@) == g && m.width == gw
            && m.height == gh && pos == e) by {
            assert(g.take(w as int) =~= g);
            assert(crate::terrain::grid_of(m.tiles@) =~= g);
            lemma_tok_split(ts@, pos0 as int, seq![gw as u64, gh as u64], rows_toks(g));
        }
    }
    Option::Some((m, pos))
}

/// A client command, as it travels from a connection handler to the
/// tick driver.
pub enum PlayerInput {
    CreatePlayer { id: String, name: String },
    DeletePlayer { id: String },
    Click { id: String, x: i32, y: i32 },
    Chat { id: String, message: String },
    SpecialInput { id: String, input: String },
}

/// The token form of one command.
pub open spec fn input_toks(p: PlayerInput) -> Seq<u64> {
    match p {
        PlayerInput::CreatePlayer { id, name } => seq![0u64] + str_toks(id@) + str_toks(name@),
        PlayerInput::DeletePlayer { id } => seq![1u64] + str_toks(id@),
        PlayerInput::Click { id, x, y } => seq![2u64] + str_toks(id@) + seq![
            i32_tok(x),
            i32_tok(y),
        ],
        PlayerInput::Chat { id, message } => seq![3u64] + str_toks(id@) + str_toks(message@),
        PlayerInput::SpecialInput { id, input } => seq![4u64] + str_toks(id@) + str_toks(input@),
    }
}

/// Two commands with one token form are the same command, field for
/// field.
pub open spec fn input_eq(a: PlayerInput, b: PlayerInput) -> bool {
    match (a, b) {
        (
            PlayerInput::CreatePlayer { id: i1, name: n1 },
            PlayerInput::CreatePlayer { id: i2, name: n2 },
        ) => i1@ == i2@ && n1@ == n2@,
        (PlayerInput::DeletePlayer { id: i1 }, PlayerInput::DeletePlayer { id: i2 }) => i1@
            == i2@,
        (
            PlayerInput::Click { id: i1, x: x1, y: y1 },
            PlayerInput::Click { id: i2, x: x2, y: y2 },
        ) => i1@ == i2@ && x1 == x2 && y1 == y2,
        (
            PlayerInput::Chat { id: i1, message: m1 },
            PlayerInput::Chat { id: i2, message: m2 },
        ) => i1@ == i2@ && m1@ == m2@,
        (
            PlayerInput::SpecialInput { id: i1, input: n1 },
            PlayerInput::SpecialInput { id: i2, input: n2 },
        ) => i1@ == i2@ && n1@ == n2@,
        _ => false,
    }
}

/// Convert one command into its transmissible text form.
pub fn serialize_player_input(input: &PlayerInput) -> (r: String)
    ensures
        r@ == enc_tokens(input_toks(*input)),
{
    let mut out: Vec<u64> = Vec::new();
    match input {
        PlayerInput::CreatePlayer { id, name } => {
            out.push(0);
            push_str_toks(&mut out, id.as_str());
            push_str_toks(&mut out, name.as_str());
            proof {
                assert(out@ =~= input_toks(*input));
            }
        },
        PlayerInput::DeletePlayer { id } => {
            out.push(1);
            push_str_toks(&mut out, id.as_str());
            proof {
                assert(out@ =~= input_toks(*input));
            }
        },
        PlayerInput::Click { id, x, y } => {
            out.push(2);
            push_str_toks(&mut out, id.as_str());
            out.push((*x as i64 + 0x80000000) as u64);
            out.push((*y as i64 + 0x80000000) as u64);
            proof {
                assert(out@ =~= input_toks(*input));
            }
        },
        PlayerInput::Chat { id, message } => {
            out.push(3);
            push_str_toks(&mut out, id.as_str());
            push_str_toks(&mut out, message.as_str());
            proof {
                assert(out@ =~= input_toks(*input));
            }
        },
        PlayerInput::SpecialInput { id, input: inp } => {
            out.push(4);
            push_str_toks(&mut out, id.as_str());
            push_str_toks(&mut out, inp.as_str());
            proof {
                assert(out@ =~= input_toks(*input));
            }
        },
    }
    tokens_to_text(&out)
}

/// Rebuild one command from its text form; malformed input yields
/// `None`, and a rebuilt command re-encodes to exactly the input.
pub fn deserialize_player_input(s: &str) -> (r: Option<PlayerInput>)
    ensures
        r matches Option::Some(cmd) ==> spec_parse_tokens(s@) == Option::Some(input_toks(cmd)),
        forall|cmd: PlayerInput|
            #![trigger input_toks(cmd)]
            spec_parse_tokens(s@) == Option::Some(input_toks(cmd)) ==> (r matches Option::Some(c2) && input_eq(c2, cmd)),
{
    let ts = match text_to_tokens(s) {
        Option::Some(ts) => ts,
        Option::None => {
            return Option::None;
        },
    };
    proof {
        // digest: a stream that encodes a command starts with its
        // tag, then the session id, then the variant's payload
        assert forall|cmd: PlayerInput|
            #![trigger input_toks(cmd)]
            spec_parse_tokens(s@) == Option::Some(input_toks(cmd)) implies (ts@ == input_toks(cmd) && ts@.len() >= 1 && (match cmd {
            PlayerInput::CreatePlayer { id, name } => ts@[0] == 0 && 1 + str_toks(id@).len()
                + str_toks(name@).len() == ts@.len() && ts@.subrange(
                1,
                1 + str_toks(id@).len() as int,
            ) == str_toks(id@) && ts@.subrange(
                1 + str_toks(id@).len() as int,
                ts@.len() as int,
            ) == str_toks(name@),
            PlayerInput::DeletePlayer { id } => ts@[0] == 1 && 1 + str_toks(id@).len()
                == ts@.len() && ts@.subrange(1, 1 + str_toks(id@).len() as int) == str_toks(id@),
            PlayerInput::Click { id, x, y } => ts@[0] == 2 && 1 + str_toks(id@).len() + 2
                == ts@.len() && ts@.subrange(1, 1 + str_toks(id@).len() as int) == str_toks(id@)
                && ts@[ts@.len() - 2] == i32_tok(x) && ts@[ts@.len() - 1] == i32_tok(y),
            PlayerInput::Chat { id, message } => ts@[0] == 3 && 1 + str_toks(id@).len()
                + str_toks(message@).len() == ts@.len() && ts@.subrange(
                1,
                1 + str_toks(id@).len() as int,
            ) == str_toks(id@) && ts@.subrange(
                1 + str_toks(id@).len() as int,
                ts@.len() as int,
            ) == str_toks(message@),
            PlayerInput::SpecialInput { id, input } => ts@[0] == 4 && 1 + str_toks(id@).len()
                + str_toks(input@).len() == ts@.len() && ts@.subrange(
                1,
                1 + str_toks(id@).len() as int,
            ) == str_toks(id@) && ts@.subrange(
                1 + str_toks(id@).len() as int,
                ts@.len() as int,
            ) == str_toks(input@),
        })) by {
            assert(ts@ == input_toks(cmd));
            assert(ts@.subrange(0, ts@.len() as int) =~= ts@);
            match cmd {
                PlayerInput::CreatePlayer { id, name } => {
                    lemma_tok_split(ts@, 0, seq![0u64] + str_toks(id@), str_toks(name@));
                    lemma_tok_split(ts@, 0, seq![0u64], str_toks(id@));
                    assert(ts@.subrange(0, 1)[0] == ts@[0]);
                },
                PlayerInput::DeletePlayer { id } => {
                    lemma_tok_split(ts@, 0, seq![1u64], str_toks(id@));
                    assert(ts@.subrange(0, 1)[0] == ts@[0]);
                },
                PlayerInput::Click { id, x, y } => {
                    lemma_tok_split(
                        ts@,
                        0,
                        seq![2u64] + str_toks(id@),
                        seq![i32_tok(x), i32_tok(y)],
                    );
                    lemma_tok_split(ts@, 0, seq![2u64], str_toks(id@));
                    assert(ts@.subrange(0, 1)[0] == ts@[0]);
                    assert(ts@.subrange(ts@.len() - 2, ts@.len() as int)[0] == ts@[ts@.len()
                        - 2]);
                    assert(ts@.subrange(ts@.len() - 2, ts@.len() as int)[1] == ts@[ts@.len()
                        - 1]);
                },
                PlayerInput::Chat { id, message } => {
                    lemma_tok_split(ts@, 0, seq![3u64] + str_toks(id@), str_toks(message@));
                    lemma_tok_split(ts@, 0, seq![3u64], str_toks(id@));
                    assert(ts@.subrange(0, 1)[0] == ts@[0]);
                },
                PlayerInput::SpecialInput { id, input } => {
                    lemma_tok_split(ts@, 0, seq![4u64] + str_toks(id@), str_toks(input@));
                    lemma_tok_split(ts@, 0, seq![4u64], str_toks(id@));
                    assert(ts@.subrange(0, 1)[0] == ts@[0]);
                },
            }
        }
    }
    if ts.len() == 0 {
        return Option::None;
    }
    let tag = ts[0];
    let (id, p1) = match read_str_toks(&ts, 1) {
        Option::Some(sp) => sp,
        Option::None => {
            return Option::None;
        },
    };
    proof {
        // the id is determined whatever the variant
        assert forall|cmd: PlayerInput|
            #![trigger input_toks(cmd)]
            spec_parse_tokens(s@) == Option::Some(input_toks(cmd)) implies (match cmd {
            PlayerInput::CreatePlayer { id: cid, name } => id@ == cid@ && p1 == 1 + str_toks(
                cid@,
            ).len(),
            PlayerInput::DeletePlayer { id: cid } => id@ == cid@ && p1 == 1 + str_toks(
                cid@,
            ).len(),
            PlayerInput::Click { id: cid, x, y } => id@ == cid@ && p1 == 1 + str_toks(
                cid@,
            ).len(),
            PlayerInput::Chat { id: cid, message } => id@ == cid@ && p1 == 1 + str_toks(
                cid@,
            ).len(),
            PlayerInput::SpecialInput { id: cid, input } => id@ == cid@ && p1 == 1 + str_toks(
                cid@,
            ).len(),
        }) by {
            match cmd {
                PlayerInput::CreatePlayer { id: cid, name } => {
                    lemma_str_toks_det(ts@, 1, id@, cid@);
                },
                PlayerInput::DeletePlayer { id: cid } => {
                    lemma_str_toks_det(ts@, 1, id@, cid@);
                },
                PlayerInput::Click { id: cid, x, y } => {
                    lemma_str_toks_det(ts@, 1, id@, cid@);
                },
                PlayerInput::Chat { id: cid, message } => {
                    lemma_str_toks_det(ts@, 1, id@, cid@);
                },
                PlayerInput::SpecialInput { id: cid, input } => {
                    lemma_str_toks_det(ts@, 1, id@, cid@);
                },
            }
        }
    }
    match tag {
        0 => {
            let (name, p2) = match read_str_toks(&ts, p1) {
                Option::Some(sp) => sp,
                Option::None => {
                    return Option::None;
                },
            };
            proof {
                assert forall|cmd: PlayerInput|
                    #![trigger input_toks(cmd)]
                    spec_parse_tokens(s@) == Option::Some(input_toks(cmd)) implies (match cmd {
                    PlayerInput::CreatePlayer { id: cid, name: cf } => name@ == cf@ && p2
                        == ts@.len(),
                    _ => true,
                }) by {
                    if let PlayerInput::CreatePlayer { id: cid, name: cf } = cmd {
                        lemma_str_toks_det(ts@, p1 as int, name@, cf@);
                    }
                }
            }
            if p2 != ts.len() {
                return Option::None;
            }
            let cmd = PlayerInput::CreatePlayer { id, name };
            proof {
                assert(ts@ =~= input_toks(cmd));
            }
            Option::Some(cmd)
        },
        1 => {
            if p1 != ts.len() {
                return Option::None;
            }
            let cmd = PlayerInput::DeletePlayer { id };
            proof {
                assert(ts@ =~= input_toks(cmd));
            }
            Option::Some(cmd)
        },
        2 => {
            if ts.len() - p1 != 2 {
                return Option::None;
            }
            let x = match read_i32_tok(ts[p1], false) {
                Option::Some(v) => v,
                Option::None => {
                    return Option::None;
                },
            };
            let y = match read_i32_tok(ts[p1 + 1], false) {
                Option::Some(v) => v,
                Option::None => {
                    return Option::None;
                },
            };
            let cmd = PlayerInput::Click { id, x, y };
            proof {
                assert(ts@ =~= input_toks(cmd));
            }
            Option::Some(cmd)
        },
        3 => {
            let (message, p2) = match read_str_toks(&ts, p1) {
                Option::Some(sp) => sp,
                Option::None => {
                    return Option::None;
                },
            };
            proof {
                assert forall|cmd: PlayerInput|
                    #![trigger input_toks(cmd)]
                    spec_parse_tokens(s@) == Option::Some(input_toks(cmd)) implies (match cmd {
                    PlayerInput::Chat { id: cid, message: cf } => message@ == cf@ && p2
                        == ts@.len(),
                    _ => true,
                }) by {
                    if let PlayerInput::Chat { id: cid, message: cf } = cmd {
                        lemma_str_toks_det(ts@, p1 as int, message@, cf@);
                    }
                }
            }
            if p2 != ts.len() {
                return Option::None;
            }
            let cmd = PlayerInput::Chat { id, message };
            proof {
                assert(ts@ =~= input_toks(cmd));
            }
            Option::Some(cmd)
        },
        4 => {
            let (input, p2) = match read_str_toks(&ts, p1) {
                Option::Some(sp) => sp,
                Option::None => {
                    return Option::None;
                },
            };
            proof {
                assert forall|cmd: PlayerInput|
                    #![trigger input_toks(cmd)]
                    spec_parse_tokens(s@) == Option::Some(input_toks(cmd)) implies (match cmd {
                    PlayerInput::SpecialInput { id: cid, input: cf } => input@ == cf@ && p2
                        == ts@.len(),
                    _ => true,
                }) by {
                    if let PlayerInput::SpecialInput { id: cid, input: cf } = cmd {
                        lemma_str_toks_det(ts@, p1 as int, input@, cf@);
                    }
                }
            }
            if p2 != ts.len() {
                return Option::None;
            }
            let cmd = PlayerInput::SpecialInput { id, input };
            proof {
                assert(ts@ =~= input_toks(cmd));
            }
            Option::Some(cmd)
        },
        _ => Option::None,
    }
}

/// Bundle the entity blob, and on first connection the terrain blob,
/// into one package.
pub fn package_save_state(serialized_ecs: String, maybe_serialized_map: Option<String>) -> (r:
    String)
    ensures
        r@ == enc_tokens(
            match maybe_serialized_map {
                Option::Some(m) => seq![1u64] + str_toks(serialized_ecs@) + str_toks(m@),
                Option::None => seq![0u64] + str_toks(serialized_ecs@),
            },
        ),
{
    let mut out: Vec<u64> = Vec::new();
    match &maybe_serialized_map {
        Option::Some(m) => {
            out.push(1);
            push_str_toks(&mut out, serialized_ecs.as_str());
            push_str_toks(&mut out, m.as_str());
            proof {
                assert(out@ =~= seq![1u64] + str_toks(serialized_ecs@) + str_toks(m@));
            }
        },
        Option::None => {
            out.push(0);
            push_str_toks(&mut out, serialized_ecs.as_str());
            proof {
                assert(out@ =~= seq![0u64] + str_toks(serialized_ecs@));
            }
        },
    }
    tokens_to_text(&out)
}

/// Replace the world, and when the package carries it the terrain,
/// with the state a package holds.  Malformed packages are refused
/// and leave both untouched.
pub fn load_game(ecs: &mut World, map: &mut TileMap, package_save_str: &str) -> (ok: bool)
    ensures
        ok ==> final(ecs).wf() && carries_ok(final(ecs)@) && final(ecs).pending@.len() == 0,
        ok ==> (exists|et: String|
            {
                &&& #[trigger] spec_parse_tokens(et@) == Option::Some(
                    world_toks(wire_of(final(ecs)@)),
                )
                &&& ((spec_parse_tokens(package_save_str@) == Option::Some(
                    seq![0u64] + str_toks(et@),
                ) && *final(map) == *old(map)) || (exists|mt: String|
                    {
                        &&& #[trigger] spec_parse_tokens(package_save_str@) == Option::Some(
                            seq![1u64] + str_toks(et@) + str_toks(mt@),
                        )
                        &&& final(map).wf()
                        &&& spec_parse_tokens(mt@) == Option::Some(
                            tilemap_toks(
                                crate::terrain::grid_of(final(map).tiles@),
                                final(map).width as int,
                                final(map).height as int,
                            ),
                        )
                    }))
            }),
        !ok ==> *final(ecs) == *old(ecs) && *final(map) == *old(map),
        forall|et: String, wire: Seq<RecV>|
            #![trigger str_toks(et@), world_toks(wire)]
            (spec_parse_tokens(package_save_str@) == Option::Some(seq![0u64] + str_toks(et@))
                && spec_parse_tokens(et@) == Option::Some(world_toks(wire)) && wire_ok(wire))
                ==> ok,
        forall|et: String, mt: String, wire: Seq<RecV>, g: Seq<Seq<TileType>>, gw: int, gh: int|
            #![trigger str_toks(et@), str_toks(mt@), world_toks(wire), tilemap_toks(g, gw, gh)]
            (spec_parse_tokens(package_save_str@) == Option::Some(
                seq![1u64] + str_toks(et@) + str_toks(mt@),
            ) && spec_parse_tokens(et@) == Option::Some(world_toks(wire)) && wire_ok(wire)
                && spec_parse_tokens(mt@) == Option::Some(tilemap_toks(g, gw, gh))
                && crate::terrain::MIN_DIM <= gw <= crate::terrain::MAX_DIM
                && crate::terrain::MIN_DIM <= gh <= crate::terrain::MAX_DIM
                && crate::terrain::grid_wf(g, gw, gh)) ==> ok,
{
    let ts = match text_to_tokens(package_save_str) {
        Option::Some(ts) => ts,
        Option::None => {
            return false;
        },
    };
    proof {
        // digest both package shapes into token facts
        assert forall|et: String, wire: Seq<RecV>|
            #![trigger str_toks(et@), world_toks(wire)]
            (spec_parse_tokens(package_save_str@) == Option::Some(seq![0u64] + str_toks(et@))
                && spec_parse_tokens(et@) == Option::Some(world_toks(wire)) && wire_ok(wire))
                implies (ts@ == seq![0u64] + str_toks(et@) && ts@.len() >= 1 && ts@[0] == 0
                && ts@.subrange(1, 1 + str_toks(et@).len() as int) == str_toks(et@) && 1
                + str_toks(et@).len() == ts@.len()) by {
            assert(ts@ == seq![0u64] + str_toks(et@));
            assert(ts@.subrange(0, ts@.len() as int) =~= ts@);
            lemma_tok_split(ts@, 0, seq![0u64], str_toks(et@));
            assert(ts@.subrange(0, 1)[0] == ts@[0]);
        }
        assert forall|et: String, mt: String, wire: Seq<RecV>, g: Seq<Seq<TileType>>, gw: int, gh: int|
            #![trigger str_toks(et@), str_toks(mt@), world_toks(wire), tilemap_toks(g, gw, gh)]
            (spec_parse_tokens(package_save_str@) == Option::Some(
                seq![1u64] + str_toks(et@) + str_toks(mt@),
            ) && spec_parse_tokens(et@) == Option::Some(world_toks(wire)) && wire_ok(wire)
                && spec_parse_tokens(mt@) == Option::Some(tilemap_toks(g, gw, gh))
                && crate::terrain::MIN_DIM <= gw <= crate::terrain::MAX_DIM
                && crate::terrain::MIN_DIM <= gh <= crate::terrain::MAX_DIM
                && crate::terrain::grid_wf(g, gw, gh)) implies (ts@ == seq![1u64] + str_toks(
                et@,
            ) + str_toks(mt@) && ts@.len() >= 1 && ts@[0] == 1 && ts@.subrange(
                1,
                1 + str_toks(et@).len() as int,
            ) == str_toks(et@) && ts@.subrange(
                1 + str_toks(et@).len() as int,
                ts@.len() as int,
            ) == str_toks(mt@) && 1 + str_toks(et@).len() + str_toks(mt@).len()
                == ts@.len()) by {
            assert(ts@ == seq![1u64] + str_toks(et@) + str_toks(mt@));
            assert(ts@.subrange(0, ts@.len() as int) =~= ts@);
            lemma_tok_split(ts@, 0, seq![1u64] + str_toks(et@), str_toks(mt@));
            lemma_tok_split(ts@, 0, seq![1u64], str_toks(et@));
            assert(ts@.subrange(0, 1)[0] == ts@[0]);
        }
    }
    if ts.len() == 0 {
        return false;
    }
    let flag = ts[0];
    if flag > 1 {
        return false;
    }
    let (ecs_text, p1) = match read_str_toks(&ts, 1) {
        Option::Some(sp) => sp,
        Option::None => {
            return false;
        },
    };
    proof {
        // the embedded entity text is pinned either way
        assert forall|et: String, wire: Seq<RecV>|
            #![trigger str_toks(et@), world_toks(wire)]
            (spec_parse_tokens(package_save_str@) == Option::Some(seq![0u64] + str_toks(et@))
                && spec_parse_tokens(et@) == Option::Some(world_toks(wire)) && wire_ok(wire))
                implies (ecs_text@ == et@ && p1 == ts@.len()) by {
            lemma_str_toks_det(ts@, 1, ecs_text@, et@);
        }
        assert forall|et: String, mt: String, wire: Seq<RecV>, g: Seq<Seq<TileType>>, gw: int, gh: int|
            #![trigger str_toks(et@), str_toks(mt@), world_toks(wire), tilemap_toks(g, gw, gh)]
            (spec_parse_tokens(package_save_str@) == Option::Some(
                seq![1u64] + str_toks(et@) + str_toks(mt@),
            ) && spec_parse_tokens(et@) == Option::Some(world_toks(wire)) && wire_ok(wire)
                && spec_parse_tokens(mt@) == Option::Some(tilemap_toks(g, gw, gh))
                && crate::terrain::MIN_DIM <= gw <= crate::terrain::MAX_DIM
                && crate::terrain::MIN_DIM <= gh <= crate::terrain::MAX_DIM
                && crate::terrain::grid_wf(g, gw, gh)) implies (ecs_text@ == et@ && p1 == 1
            + str_toks(et@).len() && ts@.subrange(p1 as int, ts@.len() as int) == str_toks(
                mt@,
            )) by {
            lemma_str_toks_det(ts@, 1, ecs_text@, et@);
        }
    }
    let ecs_toks = match text_to_tokens(ecs_text.as_str()) {
        Option::Some(ts2) => ts2,
        Option::None => {
            return false;
        },
    };
    let new_world = match decode_world(&ecs_toks) {
        Option::Some(w) => w,
        Option::None => {
            return false;
        },
    };
    if flag == 1 {
        let (map_text, p2) = match read_str_toks(&ts, p1) {
            Option::Some(sp) => sp,
            Option::None => {
                return false;
            },
        };
        proof {
            assert forall|et: String, mt: String, wire: Seq<RecV>, g: Seq<Seq<TileType>>, gw: int, gh: int|
                #![trigger str_toks(et@), str_toks(mt@), world_toks(wire), tilemap_toks(g, gw, gh)]
                (spec_parse_tokens(package_save_str@) == Option::Some(
                    seq![1u64] + str_toks(et@) + str_toks(mt@),
                ) && spec_parse_tokens(et@) == Option::Some(world_toks(wire)) && wire_ok(wire)
                    && spec_parse_tokens(mt@) == Option::Some(tilemap_toks(g, gw, gh))
                    && crate::terrain::MIN_DIM <= gw <= crate::terrain::MAX_DIM
                    && crate::terrain::MIN_DIM <= gh <= crate::terrain::MAX_DIM
                    && crate::terrain::grid_wf(g, gw, gh)) implies (map_text@ == mt@ && p2
                == ts@.len()) by {
                lemma_str_toks_det(ts@, p1 as int, map_text@, mt@);
            }
        }
        if p2 != ts.len() {
            return false;
        }
        let map_toks = match text_to_tokens(map_text.as_str()) {
            Option::Some(ts3) => ts3,
            Option::None => {
                return false;
            },
        };
        proof {
            assert forall|et: String, mt: String, wire: Seq<RecV>, g: Seq<Seq<TileType>>, gw: int, gh: int|
                #![trigger str_toks(et@), str_toks(mt@), world_toks(wire), tilemap_toks(g, gw, gh)]
                (spec_parse_tokens(package_save_str@) == Option::Some(
                    seq![1u64] + str_toks(et@) + str_toks(mt@),
                ) && spec_parse_tokens(et@) == Option::Some(world_toks(wire)) && wire_ok(wire)
                    && spec_parse_tokens(mt@) == Option::Some(tilemap_toks(g, gw, gh))
                    && crate::terrain::MIN_DIM <= gw <= crate::terrain::MAX_DIM
                    && crate::terrain::MIN_DIM <= gh <= crate::terrain::MAX_DIM
                    && crate::terrain::grid_wf(g, gw, gh)) implies (map_toks@ == tilemap_toks(
                g,
                gw,
                gh,
            ) && map_toks@.subrange(0, map_toks@.len() as int) == tilemap_toks(g, gw, gh)) by {
                assert(map_toks@.subrange(0, map_toks@.len() as int) =~= map_toks@);
            }
        }
        let (new_map, p3) = match decode_map(&map_toks, 0) {
            Option::Some(mp) => mp,
            Option::None => {
                return false;
            },
        };
        if p3 != map_toks.len() {
            return false;
        }
        *map = new_map;
        *ecs = new_world;
        proof {
            lemma_tok_join(ts@, 0, 1, p1 as int);
            lemma_tok_join(ts@, 0, p1 as int, p2 as int);
            assert(ts@.subrange(0, 1) =~= seq![1u64]);
            assert(ts@.subrange(0, ts@.len() as int) =~= ts@);
            assert(ts@ == seq![1u64] + str_toks(ecs_text@) + str_toks(map_text@));
            assert(map_toks@.subrange(0, map_toks@.len() as int) =~= map_toks@);
            assert(spec_parse_tokens(map_text@) == Option::Some(
                tilemap_toks(
                    crate::terrain::grid_of(map.tiles@),
                    map.width as int,
                    map.height as int,
                ),
            ));
            assert(spec_parse_tokens(ecs_text@) == Option::Some(
                world_toks(wire_of(ecs@)),
            ));
        }
        return true;
    } else {
        if p1 != ts.len() {
            return false;
        }
        *ecs = new_world;
        proof {
            lemma_tok_join(ts@, 0, 1, p1 as int);
            assert(ts@.subrange(0, 1) =~= seq![0u64]);
            assert(ts@.subrange(0, ts@.len() as int) =~= ts@);
            assert(ts@ == seq![0u64] + str_toks(ecs_text@));
            assert(spec_parse_tokens(ecs_text@) == Option::Some(
                world_toks(wire_of(ecs@)),
            ));
        }
        return true;
    }
}

} // verus!
