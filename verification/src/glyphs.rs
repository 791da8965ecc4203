//! The glyph table: a bijection between the 256 byte values and 256 distinct
//! multi-codepoint symbols.
//!
//! A non-zero byte's glyph is the greedy decomposition of its value into unit
//! symbols worth 200, 50, 10, 5 and 1, written largest first; the zero byte
//! has a dedicated two-codepoint glyph. No glyph contains a framing marker
//! codepoint, which keeps glyphs self-delimiting inside a token stream.

use vstd::prelude::*;
use vstd::arithmetic::div_mod::lemma_fundamental_div_mod_converse;

verus! {

/// Unit symbol worth 200 ("hugging face").
pub const HUG: char = '\u{1FAC2}';

/// Unit symbol worth 50 ("sparkling heart").
pub const SPARKLING_HEART: char = '\u{1F496}';

/// Unit symbol worth 10 ("sparkles").
pub const SPARKLES: char = '\u{2728}';

/// Unit symbol worth 5 ("pleading face").
pub const PLEADING_FACE: char = '\u{1F97A}';

/// Unit symbol worth 1.
pub const COMMA: char = ',';

/// First codepoint of the zero byte's glyph ("heavy black heart").
pub const HEART: char = '\u{2764}';

/// Second codepoint of the zero byte's glyph (variation selector 16).
pub const HEART_SELECTOR: char = '\u{FE0F}';

/// First codepoint of the current framing marker ("backhand index pointing right").
pub const POINT_RIGHT: char = '\u{1F449}';

/// Second codepoint of the current framing marker ("backhand index pointing left").
pub const POINT_LEFT: char = '\u{1F448}';

/// The legacy framing marker, a zero-width space.
pub const ZERO_WIDTH_SPACE: char = '\u{200B}';

/// The character `c` repeated `n` times.
pub open spec fn rep(c: char, n: int) -> Seq<char> {
    if n <= 0 {
        Seq::empty()
    } else {
        Seq::new(n as nat, |i: int| c)
    }
}

/// The glyph of byte `b`, without any framing marker: the greedy
/// decomposition of its value into the five unit symbols, or the dedicated
/// heart glyph for the zero byte.
pub open spec fn glyph_chars(b: u8) -> Seq<char> {
    let v = b as int;
    if v == 0 {
        seq![HEART, HEART_SELECTOR]
    } else {
        let r1 = v % 200;
        let r2 = r1 % 50;
        let r3 = r2 % 10;
        rep(HUG, v / 200) + rep(SPARKLING_HEART, r1 / 50) + rep(SPARKLES, r2 / 10) + rep(
            PLEADING_FACE,
            r3 / 5,
        ) + rep(COMMA, r3 % 5)
    }
}

/// The current framing marker, used as glyph terminator and joiner.
pub open spec fn current_marker() -> Seq<char> {
    seq![POINT_RIGHT, POINT_LEFT]
}

/// The legacy framing marker.
pub open spec fn legacy_marker() -> Seq<char> {
    seq![ZERO_WIDTH_SPACE]
}

/// A byte's full table entry: its glyph followed by the current marker.
pub open spec fn glyph_with_marker(b: u8) -> Seq<char> {
    glyph_chars(b) + current_marker()
}

/// Appends `n` copies of the single-character string `unit` to `s`.
fn append_run(s: &mut String, unit: &str, n: u8)
    requires
        unit@.len() == 1,
    ensures
        final(s)@ == old(s)@ + rep(unit@[0], n as int),
{
    proof {
        assert(old(s)@ + rep(unit@[0], 0) =~= old(s)@);
    }
    let mut i: u8 = 0;
    while i < n
        invariant
            unit@.len() == 1,
            i <= n,
            s@ == old(s)@ + rep(unit@[0], i as int),
        decreases n - i,
    {
        s.append(unit);
        proof {
            assert(s@ =~= old(s)@ + rep(unit@[0], i + 1));
        }
        i = i + 1;
    }
}

/// Maps a byte to its glyph, terminated by the current framing marker.
/// Total: every byte value has a table entry.
pub fn encode_byte(value: u8) -> (r: String)
    ensures
        r@ == glyph_with_marker(value),
{
    let mut s = String::new();
    if value == 0 {
        s.append("\u{2764}\u{FE0F}");
        proof {
            reveal_strlit("\u{2764}\u{FE0F}");
            assert(s@ =~= glyph_chars(value));
        }
    } else {
        proof {
            reveal_strlit("\u{1FAC2}");
            reveal_strlit("\u{1F496}");
            reveal_strlit("\u{2728}");
            reveal_strlit("\u{1F97A}");
            reveal_strlit(",");
        }
        let ghost s0 = s@;
        let r1 = value % 200;
        let r2 = r1 % 50;
        let r3 = r2 % 10;
        append_run(&mut s, "\u{1FAC2}", value / 200);
        append_run(&mut s, "\u{1F496}", r1 / 50);
        append_run(&mut s, "\u{2728}", r2 / 10);
        append_run(&mut s, "\u{1F97A}", r3 / 5);
        append_run(&mut s, ",", r3 % 5);
        proof {
            let v = value as int;
            assert(s@ =~= s0 + rep(HUG, v / 200) + rep(SPARKLING_HEART, (v % 200) / 50)
                + rep(SPARKLES, (v % 200 % 50) / 10) + rep(PLEADING_FACE, (v % 200 % 50 % 10) / 5)
                + rep(COMMA, v % 200 % 50 % 10 % 5));
            assert(s@ =~= glyph_chars(value));
        }
    }
    s.append("\u{1F449}\u{1F448}");
    proof {
        reveal_strlit("\u{1F449}\u{1F448}");
        assert(s@ =~= glyph_with_marker(value));
    }
    s
}

/// True of the five unit symbols that make up non-zero glyphs.
pub open spec fn is_unit_char(c: char) -> bool {
    c == HUG || c == SPARKLING_HEART || c == SPARKLES || c == PLEADING_FACE || c == COMMA
}

/// Length of the maximal leading run of `c` in `s`.
spec fn run_len(s: Seq<char>, c: char) -> int
    decreases s.len(),
{
    if s.len() > 0 && s[0] == c {
        1 + run_len(s.drop_first(), c)
    } else {
        0
    }
}

/// The maximal leading run is a well-formed prefix: bounded by the length,
/// made of `c` alone, and not extendable.
proof fn lemma_run_len_shape(s: Seq<char>, c: char)
    ensures
        0 <= run_len(s, c) <= s.len(),
        forall|i: int| 0 <= i < run_len(s, c) ==> s[i] == c,
        run_len(s, c) < s.len() ==> s[run_len(s, c)] != c,
    decreases s.len(),
{
    if s.len() > 0 && s[0] == c {
        lemma_run_len_shape(s.drop_first(), c);
        let n = run_len(s, c);
        assert forall|i: int| 0 <= i < n implies s[i] == c by {
            if i > 0 {
                assert(s[i] == s.drop_first()[i - 1]);
            }
        }
        if n < s.len() {
            assert(s[n] == s.drop_first()[n - 1]);
        }
    }
}

/// A run of `c` followed by anything that does not start with `c` has that
/// run as its maximal leading run.
proof fn lemma_run_of_rep(c: char, n: int, t: Seq<char>)
    requires
        n >= 0,
        t.len() == 0 || t[0] != c,
    ensures
        run_len(rep(c, n) + t, c) == n,
        (rep(c, n) + t).skip(n) == t,
    decreases n,
{
    if n == 0 {
        assert(rep(c, 0) + t =~= t);
    } else {
        let s = rep(c, n) + t;
        assert(s[0] == c);
        assert(s.drop_first() =~= rep(c, n - 1) + t);
        lemma_run_of_rep(c, n - 1, t);
    }
    assert((rep(c, n) + t).skip(n) =~= t);
}

/// The greedy digits of a byte value: bounded place values that weight back
/// to the value itself.
proof fn lemma_digits(v: int)
    requires
        1 <= v <= 255,
    ensures
        0 <= v / 200 <= 1,
        0 <= v % 200 / 50 <= 3,
        0 <= v % 200 % 50 / 10 <= 4,
        0 <= v % 200 % 50 % 10 / 5 <= 1,
        0 <= v % 200 % 50 % 10 % 5 <= 4,
        v == 200 * (v / 200) + 50 * (v % 200 / 50) + 10 * (v % 200 % 50 / 10) + 5 * (v % 200 % 50
            % 10 / 5) + v % 200 % 50 % 10 % 5,
{
}

/// A sequence that is covered by its five maximal leading runs of the unit
/// symbols, in table order, is exactly the concatenation of those runs.
#[verifier::rlimit(100)]
#[verifier::spinoff_prover]
proof fn lemma_runs_decompose(seg: Seq<char>, n1: int, n2: int, n3: int, n4: int, n5: int)
    requires
        n1 == run_len(seg, HUG),
        n2 == run_len(seg.skip(n1), SPARKLING_HEART),
        n3 == run_len(seg.skip(n1 + n2), SPARKLES),
        n4 == run_len(seg.skip(n1 + n2 + n3), PLEADING_FACE),
        n5 == run_len(seg.skip(n1 + n2 + n3 + n4), COMMA),
        seg.len() == n1 + n2 + n3 + n4 + n5,
    ensures
        seg == rep(HUG, n1) + rep(SPARKLING_HEART, n2) + rep(SPARKLES, n3) + rep(
            PLEADING_FACE,
            n4,
        ) + rep(COMMA, n5),
{
    let s1 = seg.skip(n1);
    lemma_run_len_shape(seg, HUG);
    lemma_run_len_shape(s1, SPARKLING_HEART);
    assert(s1.skip(n2) =~= seg.skip(n1 + n2));
    let s2 = seg.skip(n1 + n2);
    lemma_run_len_shape(s2, SPARKLES);
    assert(s2.skip(n3) =~= seg.skip(n1 + n2 + n3));
    let s3 = seg.skip(n1 + n2 + n3);
    lemma_run_len_shape(s3, PLEADING_FACE);
    assert(s3.skip(n4) =~= seg.skip(n1 + n2 + n3 + n4));
    let s4 = seg.skip(n1 + n2 + n3 + n4);
    lemma_run_len_shape(s4, COMMA);
    assert(s4 =~= rep(COMMA, n5));
    assert(s3 =~= rep(PLEADING_FACE, n4) + rep(COMMA, n5));
    assert(s2 =~= rep(SPARKLES, n3) + (rep(PLEADING_FACE, n4) + rep(COMMA, n5)));
    assert(s1 =~= rep(SPARKLING_HEART, n2) + (rep(SPARKLES, n3) + (rep(PLEADING_FACE, n4) + rep(
        COMMA,
        n5,
    ))));
    assert(seg =~= rep(HUG, n1) + (rep(SPARKLING_HEART, n2) + (rep(SPARKLES, n3) + (rep(
        PLEADING_FACE,
        n4,
    ) + rep(COMMA, n5)))));
    assert(seg =~= rep(HUG, n1) + rep(SPARKLING_HEART, n2) + rep(SPARKLES, n3) + rep(
        PLEADING_FACE,
        n4,
    ) + rep(COMMA, n5));
}

/// The run structure of a non-zero byte's glyph: the five maximal runs are
/// exactly the greedy digits of the byte's value, they cover the glyph, and
/// the digits are bounded and sum (weighted) back to the value.
#[verifier::rlimit(100)]
#[verifier::spinoff_prover]
proof fn lemma_glyph_parse(b: u8)
    requires
        b != 0,
    ensures
        ({
            let v = b as int;
            let a1 = v / 200;
            let r1 = v % 200;
            let a2 = r1 / 50;
            let r2 = r1 % 50;
            let a3 = r2 / 10;
            let r3 = r2 % 10;
            let a4 = r3 / 5;
            let a5 = r3 % 5;
            let g = glyph_chars(b);
            &&& run_len(g, HUG) == a1
            &&& run_len(g.skip(a1), SPARKLING_HEART) == a2
            &&& run_len(g.skip(a1 + a2), SPARKLES) == a3
            &&& run_len(g.skip(a1 + a2 + a3), PLEADING_FACE) == a4
            &&& run_len(g.skip(a1 + a2 + a3 + a4), COMMA) == a5
            &&& g.len() == a1 + a2 + a3 + a4 + a5
            &&& 0 <= a1 <= 1 && 0 <= a2 <= 3 && 0 <= a3 <= 4 && 0 <= a4 <= 1 && 0 <= a5 <= 4
            &&& v == 200 * a1 + 50 * a2 + 10 * a3 + 5 * a4 + a5
        }),
{
    let v = b as int;
    let a1 = v / 200;
    let r1 = v % 200;
    let a2 = r1 / 50;
    let r2 = r1 % 50;
    let a3 = r2 / 10;
    let r3 = r2 % 10;
    let a4 = r3 / 5;
    let a5 = r3 % 5;
    lemma_digits(v);
    let g = glyph_chars(b);
    let t5 = rep(COMMA, a5);
    let t4 = rep(PLEADING_FACE, a4) + t5;
    let t3 = rep(SPARKLES, a3) + t4;
    let t2 = rep(SPARKLING_HEART, a2) + t3;
    assert(g =~= rep(HUG, a1) + t2);
    assert(t2.len() == 0 || t2[0] != HUG) by {
        if t2.len() > 0 {
            if a2 > 0 {
            } else if a3 > 0 {
                assert(t2 =~= t3);
            } else if a4 > 0 {
                assert(t2 =~= t4);
            } else {
                assert(t2 =~= t5);
                assert(a5 > 0);
            }
        }
    }
    lemma_run_of_rep(HUG, a1, t2);
    assert(t3.len() == 0 || t3[0] != SPARKLING_HEART) by {
        if t3.len() > 0 {
            if a3 > 0 {
            } else if a4 > 0 {
                assert(t3 =~= t4);
            } else {
                assert(t3 =~= t5);
                assert(a5 > 0);
            }
        }
    }
    lemma_run_of_rep(SPARKLING_HEART, a2, t3);
    assert(t4.len() == 0 || t4[0] != SPARKLES) by {
        if t4.len() > 0 {
            if a4 > 0 {
            } else {
                assert(t4 =~= t5);
                assert(a5 > 0);
            }
        }
    }
    lemma_run_of_rep(SPARKLES, a3, t4);
    assert(t5.len() == 0 || t5[0] != PLEADING_FACE) by {
        if t5.len() > 0 {
            assert(a5 > 0);
        }
    }
    lemma_run_of_rep(PLEADING_FACE, a4, t5);
    lemma_run_of_rep(COMMA, a5, Seq::empty());
    assert(rep(COMMA, a5) + Seq::<char>::empty() =~= t5);
    assert(g.skip(a1) == t2);
    assert(t2.skip(a2) == t3);
    assert(g.skip(a1 + a2) =~= t2.skip(a2));
    assert(g.skip(a1 + a2 + a3) =~= t3.skip(a3));
    assert(g.skip(a1 + a2 + a3 + a4) =~= t4.skip(a4));
}

/// Every codepoint of a glyph is a unit symbol or one of the two codepoints
/// of the zero glyph; in particular no glyph contains a marker codepoint.
pub proof fn lemma_glyph_no_marker_chars(b: u8)
    ensures
        forall|i: int|
            0 <= i < glyph_chars(b).len() ==> (is_unit_char(#[trigger] glyph_chars(b)[i])
                || glyph_chars(b)[i] == HEART || glyph_chars(b)[i] == HEART_SELECTOR),
{
    if b != 0 {
        let v = b as int;
        let a1 = v / 200;
        let r1 = v % 200;
        let a2 = r1 / 50;
        let r2 = r1 % 50;
        let a3 = r2 / 10;
        let r3 = r2 % 10;
        let a4 = r3 / 5;
        let a5 = r3 % 5;
        let g = glyph_chars(b);
        assert forall|i: int| 0 <= i < g.len() implies is_unit_char(g[i]) by {
            let p12 = rep(HUG, a1) + rep(SPARKLING_HEART, a2);
            let p13 = p12 + rep(SPARKLES, a3);
            let p14 = p13 + rep(PLEADING_FACE, a4);
            assert(g == p14 + rep(COMMA, a5));
            if i < a1 {
                assert(g[i] == HUG);
            } else if i < a1 + a2 {
                assert(g[i] == SPARKLING_HEART);
            } else if i < a1 + a2 + a3 {
                assert(g[i] == SPARKLES);
            } else if i < a1 + a2 + a3 + a4 {
                assert(g[i] == PLEADING_FACE);
            } else {
                assert(g[i] == COMMA);
            }
        }
    }
}

/// Every glyph is non-empty.
pub proof fn lemma_glyph_nonempty(b: u8)
    ensures
        glyph_chars(b).len() >= 1,
{
    if b != 0 {
        lemma_glyph_parse(b);
    }
}

/// No two distinct byte values share a glyph: the forward table is injective,
/// so the inverse table is well defined on all 256 entries.
pub proof fn lemma_glyph_injective(b1: u8, b2: u8)
    ensures
        glyph_chars(b1) == glyph_chars(b2) ==> b1 == b2,
{
    if glyph_chars(b1) == glyph_chars(b2) && b1 != b2 {
        if b1 == 0 || b2 == 0 {
            let bz: u8 = if b1 == 0 { b2 } else { b1 };
            assert(bz != 0);
            assert(glyph_chars(bz) == glyph_chars(0));
            lemma_glyph_no_marker_chars(bz);
            lemma_glyph_parse(bz);
            let g = glyph_chars(bz);
            assert(g[0] == HEART);
            lemma_run_len_shape(g, HUG);
            let v = bz as int;
            let a1 = v / 200;
            assert(a1 == 0);
            let r1 = v % 200;
            let a2 = r1 / 50;
            assert(g.skip(0) =~= g);
            assert(a2 == 0);
            let r2 = r1 % 50;
            let a3 = r2 / 10;
            assert(a3 == 0);
            let r3 = r2 % 10;
            let a4 = r3 / 5;
            assert(a4 == 0);
            let a5 = r3 % 5;
            assert(run_len(g, COMMA) == a5);
            lemma_run_len_shape(g, COMMA);
            assert(a5 == 0);
            assert(v == 0);
        } else {
            lemma_glyph_parse(b1);
            lemma_glyph_parse(b2);
            let g = glyph_chars(b1);
            let v1 = b1 as int;
            let v2 = b2 as int;
            assert(v1 / 200 == run_len(g, HUG));
            assert(v2 / 200 == run_len(g, HUG));
            assert(v1 % 200 / 50 == v2 % 200 / 50);
            assert(v1 % 200 % 50 / 10 == v2 % 200 % 50 / 10);
            assert(v1 % 200 % 50 % 10 / 5 == v2 % 200 % 50 % 10 / 5);
            assert(v1 % 200 % 50 % 10 % 5 == v2 % 200 % 50 % 10 % 5);
            assert(v1 == v2);
        }
    }
}

/// Counts the maximal run of the character `unit` in `s` starting at `from`,
/// stopping at `to`.
fn count_run(s: &str, from: usize, to: usize, unit: char) -> (r: usize)
    requires
        from <= to <= s@.len(),
    ensures
        r == run_len(s@.subrange(from as int, to as int), unit),
        from + r <= to,
{
    let ghost seg = s@.subrange(from as int, to as int);
    proof {
        lemma_run_len_shape(seg, unit);
        assert(seg.skip(0) =~= seg);
    }
    let mut i = from;
    while i < to && s.get_char(i) == unit
        invariant
            from <= i <= to <= s@.len(),
            seg == s@.subrange(from as int, to as int),
            run_len(seg, unit) == i - from + run_len(seg.skip(i - from), unit),
        decreases to - i,
    {
        proof {
            let k = i - from;
            assert(seg.skip(k)[0] == seg[k] == s@[i as int] == unit);
            assert(run_len(seg.skip(k), unit) == 1 + run_len(seg.skip(k).drop_first(), unit));
            assert(seg.skip(k).drop_first() =~= seg.skip(k + 1));
        }
        i = i + 1;
    }
    proof {
        let k = i - from;
        if k < seg.len() {
            assert(seg.skip(k)[0] == seg[k] == s@[i as int]);
            assert(s@[i as int] != unit);
            assert(run_len(seg.skip(k), unit) == 0);
        } else {
            assert(seg.skip(k) =~= Seq::<char>::empty());
            assert(run_len(seg.skip(k), unit) == 0);
        }
    }
    i - from
}

/// Decodes the glyph occupying `s[from..to)`, if that segment is exactly one
/// of the 256 table entries (without framing marker).
#[verifier::rlimit(50)]
pub(crate) fn decode_segment(s: &str, from: usize, to: usize) -> (r: Option<u8>)
    requires
        from <= to <= s@.len(),
    ensures
        match r {
            Some(b) => s@.subrange(from as int, to as int) == glyph_chars(b),
            None => forall|b: u8| s@.subrange(from as int, to as int) != glyph_chars(b),
        },
{
    let ghost seg = s@.subrange(from as int, to as int);
    if to - from == 2 && s.get_char(from) == HEART && s.get_char(from + 1) == HEART_SELECTOR {
        proof {
            assert(seg =~= glyph_chars(0));
        }
        return Some(0);
    }
    proof {
        assert(seg != glyph_chars(0)) by {
            if seg == glyph_chars(0) {
                assert(seg.len() == 2);
                assert(s@[from as int] == seg[0] == HEART);
                assert(s@[from as int + 1] == seg[1] == HEART_SELECTOR);
            }
        }
    }
    let n1 = count_run(s, from, to, HUG);
    let n2 = count_run(s, from + n1, to, SPARKLING_HEART);
    let n3 = count_run(s, from + n1 + n2, to, SPARKLES);
    let n4 = count_run(s, from + n1 + n2 + n3, to, PLEADING_FACE);
    let n5 = count_run(s, from + n1 + n2 + n3 + n4, to, COMMA);
    proof {
        assert(s@.subrange((from + n1) as int, to as int) =~= seg.skip(n1 as int));
        assert(s@.subrange((from + n1 + n2) as int, to as int) =~= seg.skip(n1 as int + n2 as int));
        assert(s@.subrange((from + n1 + n2 + n3) as int, to as int) =~= seg.skip(n1 as int + n2 as int + n3 as int));
        assert(s@.subrange((from + n1 + n2 + n3 + n4) as int, to as int) =~= seg.skip(n1 as int + n2 as int + n3 as int + n4 as int));
    }
    let used = n1 + n2 + n3 + n4 + n5;
    if !(from + used == to && n1 <= 1 && n2 <= 3 && n3 <= 4 && n4 <= 1 && n5 <= 4) {
        proof {
            assert forall|b: u8| seg != glyph_chars(b) by {
                if seg == glyph_chars(b) && b != 0 {
                    lemma_glyph_parse(b);
                }
            }
        }
        return None;
    }
    let value: u32 = 200 * (n1 as u32) + 50 * (n2 as u32) + 10 * (n3 as u32) + 5 * (n4 as u32) + (
    n5 as u32);
    if value == 0 || value > 255 {
        proof {
            assert forall|b: u8| seg != glyph_chars(b) by {
                if seg == glyph_chars(b) && b != 0 {
                    lemma_glyph_parse(b);
                }
            }
        }
        return None;
    }
    let b = value as u8;
    proof {
        let v = b as int;
        assert(v == 200 * (n1 as int) + 50 * (n2 as int) + 10 * (n3 as int) + 5 * (n4 as int) + (
        n5 as int));
        assert(v / 200 == n1 as int && v % 200 == 50 * (n2 as int) + 10 * (n3 as int) + 5 * (
        n4 as int) + (n5 as int)) by {
            lemma_fundamental_div_mod_converse(
                v,
                200,
                n1 as int,
                50 * (n2 as int) + 10 * (n3 as int) + 5 * (n4 as int) + (n5 as int),
            );
        }
        let r1 = v % 200;
        assert(r1 / 50 == n2 as int && r1 % 50 == 10 * (n3 as int) + 5 * (n4 as int) + (
        n5 as int)) by {
            lemma_fundamental_div_mod_converse(
                r1,
                50,
                n2 as int,
                10 * (n3 as int) + 5 * (n4 as int) + (n5 as int),
            );
        }
        let r2 = r1 % 50;
        assert(r2 / 10 == n3 as int && r2 % 10 == 5 * (n4 as int) + (n5 as int)) by {
            lemma_fundamental_div_mod_converse(
                r2,
                10,
                n3 as int,
                5 * (n4 as int) + (n5 as int),
            );
        }
        let r3 = r2 % 10;
        assert(r3 / 5 == n4 as int && r3 % 5 == n5 as int) by {
            lemma_fundamental_div_mod_converse(r3, 5, n4 as int, n5 as int);
        }
        lemma_runs_decompose(seg, n1 as int, n2 as int, n3 as int, n4 as int, n5 as int);
        assert(seg == glyph_chars(b));
    }
    Some(b)
}

} // verus!
