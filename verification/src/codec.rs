//! The codec: string-level encoding and decoding on top of the glyph table.
//!
//! Encoding maps every UTF-8 byte of the input text to its glyph (each table
//! entry carries a trailing marker) and concatenates the results. Decoding
//! first detects which of two historical framing conventions produced the
//! input, strips one trailing marker, splits on the marker, maps every
//! segment back to its byte, and reassembles the bytes as text with lossy
//! UTF-8 substitution.

use vstd::prelude::*;
use vstd::string::StringSliceAdditionalSpecFns;
use vstd::utf8::decode_utf8;
use vstd::utf8::encode_utf8;
use vstd::utf8::valid_utf8;

use crate::glyphs::HEART;
use crate::glyphs::HEART_SELECTOR;
use crate::glyphs::POINT_LEFT;
use crate::glyphs::POINT_RIGHT;
use crate::glyphs::ZERO_WIDTH_SPACE;
use crate::glyphs::current_marker;
use crate::glyphs::decode_segment;
use crate::glyphs::encode_byte;
use crate::glyphs::glyph_chars;
use crate::glyphs::glyph_with_marker;
use crate::glyphs::is_unit_char;
use crate::glyphs::legacy_marker;
use crate::glyphs::lemma_glyph_injective;
use crate::glyphs::lemma_glyph_no_marker_chars;
use crate::glyphs::lemma_glyph_nonempty;

verus! {

/// The decode error: a split segment did not match any table entry.
#[derive(Debug)]
pub struct TranslationError {
    /// Human-readable diagnostic naming the first unrecognized segment.
    pub why: String,
}

impl TranslationError {
    /// The diagnostic message.
    pub fn message(&self) -> (r: &str)
        ensures
            r@ == self.why@,
    {
        self.why.as_str()
    }
}

/// Builds the decode error for one unrecognized segment.
fn unrecognized(seg: &str) -> (e: TranslationError)
    ensures
        e.why@ == "Cannot decode character "@ + seg@,
{
    let mut why = String::from_str("Cannot decode character ");
    why.append(seg);
    TranslationError { why }
}

/// A single-glyph token as the byte decoder accepts it: the byte's glyph,
/// with or without its trailing marker.
pub open spec fn byte_token_of(s: Seq<char>, b: u8) -> bool {
    s == glyph_chars(b) || s == glyph_with_marker(b)
}

/// Decodes a single glyph back to its byte. The glyph may carry its trailing
/// marker (as `encode_byte` produces it) or stand bare (as a split segment);
/// anything else is rejected with a diagnostic naming the input.
pub fn decode_byte(input: &str) -> (r: Result<u8, TranslationError>)
    ensures
        (exists|b: u8| byte_token_of(input@, b)) <==> r is Ok,
        r matches Ok(b) ==> byte_token_of(input@, b),
        r matches Err(e) ==> e.why@ == "Cannot decode character "@ + input@,
{
    let n = input.unicode_len();
    let mut end = n;
    if n >= 2 && input.get_char(n - 2) == POINT_RIGHT && input.get_char(n - 1) == POINT_LEFT {
        end = n - 2;
    }
    match decode_segment(input, 0, end) {
        Some(b) => {
            proof {
                let seg = input@.subrange(0, end as int);
                if end == n {
                    assert(input@ =~= seg);
                } else {
                    assert(input@ =~= seg + current_marker());
                    assert(input@ == glyph_with_marker(b));
                }
                assert(byte_token_of(input@, b));
            }
            Ok(b)
        },
        None => {
            proof {
                let seg = input@.subrange(0, end as int);
                assert forall|b: u8| !byte_token_of(input@, b) by {
                    if byte_token_of(input@, b) {
                        lemma_glyph_no_marker_chars(b);
                        lemma_glyph_nonempty(b);
                        if input@ == glyph_chars(b) {
                            if end == n {
                                assert(seg =~= input@);
                                assert(false);
                            } else {
                                assert(input@[n - 2] == POINT_RIGHT);
                                assert(false);
                            }
                        } else {
                            assert(input@ == glyph_chars(b) + current_marker());
                            assert(n == glyph_chars(b).len() + 2);
                            assert(input@[n - 2] == POINT_RIGHT);
                            assert(input@[n - 1] == POINT_LEFT);
                            assert(end == n - 2);
                            assert(seg =~= glyph_chars(b));
                            assert(false);
                        }
                    }
                }
            }
            Err(unrecognized(input))
        },
    }
}

/// The token stream for a byte sequence, framed with marker `m`: each byte's
/// glyph followed by one marker.
pub open spec fn token_stream_with(bs: Seq<u8>, m: Seq<char>) -> Seq<char>
    decreases bs.len(),
{
    if bs.len() == 0 {
        Seq::empty()
    } else {
        glyph_chars(bs[0]) + m + token_stream_with(bs.drop_first(), m)
    }
}

/// The token stream the encoder produces: framed with the current marker.
pub open spec fn token_stream(bs: Seq<u8>) -> Seq<char> {
    token_stream_with(bs, current_marker())
}

/// Appending a byte to the sequence appends its framed glyph to the stream.
proof fn lemma_stream_snoc(bs: Seq<u8>, b: u8, m: Seq<char>)
    ensures
        token_stream_with(bs.push(b), m) == token_stream_with(bs, m) + (glyph_chars(b) + m),
    decreases bs.len(),
{
    if bs.len() == 0 {
        assert(bs.push(b).drop_first() =~= Seq::<u8>::empty());
        assert(bs.push(b)[0] == b);
        assert(token_stream_with(bs.push(b), m) == glyph_chars(b) + m + token_stream_with(
            Seq::<u8>::empty(),
            m,
        ));
        assert(token_stream_with(bs.push(b), m) =~= token_stream_with(bs, m) + (glyph_chars(b)
            + m));
    } else {
        assert(bs.push(b).len() == bs.len() + 1);
        assert(bs.push(b)[0] == bs[0]);
        assert(bs.push(b).drop_first() =~= bs.drop_first().push(b));
        lemma_stream_snoc(bs.drop_first(), b, m);
        assert(token_stream_with(bs.push(b), m) == glyph_chars(bs[0]) + m + (token_stream_with(
            bs.drop_first(),
            m,
        ) + (glyph_chars(b) + m)));
        assert(token_stream_with(bs.push(b), m) =~= token_stream_with(bs, m) + (glyph_chars(b)
            + m));
    }
}

/// Encodes a text: every byte of its UTF-8 form becomes one glyph, glyphs
/// are concatenated in byte order with no extra separator. Total and pure:
/// the result is a function of the input text alone, so encoding the same
/// text twice yields identical token streams.
pub fn encode_string(input: &str) -> (r: String)
    ensures
        r@ == token_stream(encode_utf8(input@)),
{
    let bytes = input.as_bytes_vec();
    let mut out = String::new();
    let mut i: usize = 0;
    proof {
        assert(bytes@.take(0) =~= Seq::<u8>::empty());
    }
    while i < bytes.len()
        invariant
            bytes@ == input.spec_bytes(),
            i <= bytes.len(),
            out@ == token_stream(bytes@.take(i as int)),
        decreases bytes.len() - i,
    {
        let g = encode_byte(bytes[i]);
        out.append(g.as_str());
        proof {
            assert(bytes@.take(i + 1) =~= bytes@.take(i as int).push(bytes@[i as int]));
            lemma_stream_snoc(bytes@.take(i as int), bytes@[i as int], current_marker());
        }
        i = i + 1;
    }
    proof {
        assert(bytes@.take(bytes@.len() as int) =~= bytes@);
    }
    out
}

/// The two codepoints the framing sniff looks for.
pub open spec fn is_sniff_char(c: char) -> bool {
    c == ZERO_WIDTH_SPACE || c == POINT_RIGHT
}

/// True when the first marker codepoint found in `s` is the legacy
/// zero-width space, which selects the legacy framing convention.
pub open spec fn legacy_selected(s: Seq<char>) -> bool {
    exists|i: int|
        0 <= i < s.len() && s[i] == ZERO_WIDTH_SPACE && (forall|j: int|
            0 <= j < i ==> !is_sniff_char(#[trigger] s[j]))
}

/// The marker the decoder splits on, as selected by the framing sniff.
pub open spec fn marker_of(s: Seq<char>) -> Seq<char> {
    if legacy_selected(s) {
        legacy_marker()
    } else {
        current_marker()
    }
}

/// True when `m` occurs in `s` at position `i`.
pub open spec fn match_at(s: Seq<char>, m: Seq<char>, i: int) -> bool {
    0 <= i && i + m.len() <= s.len() && s.subrange(i, i + m.len()) == m
}

/// `s` with one trailing occurrence of `m` removed, if it ends with one.
pub open spec fn strip_trailing(s: Seq<char>, m: Seq<char>) -> Seq<char> {
    if m.len() <= s.len() && match_at(s, m, s.len() - m.len()) {
        s.take(s.len() - m.len())
    } else {
        s
    }
}

/// Splits `s` on every occurrence of `m`, scanning left to right from
/// position `i`; matches are non-overlapping and leftmost-first.
pub open spec fn split_scan(s: Seq<char>, m: Seq<char>, i: int) -> Seq<Seq<char>>
    recommends
        0 <= i <= s.len(),
        1 <= m.len(),
    decreases s.len() - i
        when 0 <= i <= s.len() && 1 <= m.len()
{
    if match_at(s, m, i) {
        seq![s.take(i)] + split_scan(s.skip(i + m.len()), m, 0)
    } else if i < s.len() {
        split_scan(s, m, i + 1)
    } else {
        seq![s]
    }
}

/// The segments of `s` under separator `m`.
pub open spec fn split_on(s: Seq<char>, m: Seq<char>) -> Seq<Seq<char>> {
    split_scan(s, m, 0)
}

/// The glyph segments the decoder sees: sniff the marker, strip one trailing
/// occurrence, split on the rest.
pub open spec fn segments_of(s: Seq<char>) -> Seq<Seq<char>> {
    split_on(strip_trailing(s, marker_of(s)), marker_of(s))
}

/// True when a segment is one of the 256 table glyphs.
pub open spec fn is_glyph_seg(seg: Seq<char>) -> bool {
    exists|b: u8| seg == glyph_chars(b)
}

/// The byte a glyph segment stands for (well defined by injectivity).
pub open spec fn glyph_value(seg: Seq<char>) -> u8 {
    choose|b: u8| seg == glyph_chars(b)
}

/// True when every segment of `s` is a table glyph, i.e. decoding succeeds.
pub open spec fn all_segments_glyphs(s: Seq<char>) -> bool {
    forall|k: int| 0 <= k < segments_of(s).len() ==> is_glyph_seg(#[trigger] segments_of(s)[k])
}

/// The byte sequence a well-formed token string stands for.
pub open spec fn stream_bytes(s: Seq<char>) -> Seq<u8> {
    Seq::new(segments_of(s).len(), |k: int| glyph_value(segments_of(s)[k]))
}

/// What `String::from_utf8_lossy` returns on an arbitrary byte sequence.
pub uninterp spec fn lossy_chars_of(bytes: Seq<u8>) -> Seq<char>;

/// Relies on `String::from_utf8_lossy`: the result is a function of the
/// bytes alone; valid UTF-8 decodes to exactly the characters that encode
/// it, and invalid sequences are replaced with the replacement character.
#[verifier::external_body]
fn bytes_to_string_lossy(bytes: &Vec<u8>) -> (r: String)
    ensures
        r@ == lossy_chars_of(bytes@),
        valid_utf8(bytes@) ==> r@ == decode_utf8(bytes@),
{
    String::from_utf8_lossy(bytes.as_slice()).to_string()
}

/// Scans for the first framing marker codepoint and reports whether it is
/// the legacy zero-width space.
fn sniff_legacy(input: &str) -> (r: bool)
    ensures
        r == legacy_selected(input@),
{
    let n = input.unicode_len();
    let mut k: usize = 0;
    while k < n
        invariant
            k <= n,
            n == input@.len(),
            forall|j: int| 0 <= j < k ==> !is_sniff_char(#[trigger] input@[j]),
        decreases n - k,
    {
        let c = input.get_char(k);
        if c == ZERO_WIDTH_SPACE {
            proof {
                assert(0 <= k < input@.len() && input@[k as int] == ZERO_WIDTH_SPACE && (forall|
                    j: int,
                |
                    0 <= j < k ==> !is_sniff_char(#[trigger] input@[j])));
            }
            return true;
        }
        if c == POINT_RIGHT {
            proof {
                if legacy_selected(input@) {
                    let i = choose|i: int|
                        0 <= i < input@.len() && input@[i] == ZERO_WIDTH_SPACE && (forall|j: int|
                            0 <= j < i ==> !is_sniff_char(#[trigger] input@[j]));
                    assert(is_sniff_char(input@[k as int]));
                    if i < k {
                        assert(!is_sniff_char(input@[i]));
                    } else if i > k {
                        assert(!is_sniff_char(input@[k as int]));
                    }
                }
            }
            return false;
        }
        k = k + 1;
    }
    proof {
        if legacy_selected(input@) {
            let i = choose|i: int|
                0 <= i < input@.len() && input@[i] == ZERO_WIDTH_SPACE && (forall|j: int|
                    0 <= j < i ==> !is_sniff_char(#[trigger] input@[j]));
            assert(!is_sniff_char(input@[i]));
        }
    }
    false
}

/// The marker selected by the sniff result.
pub open spec fn marker_spec(legacy: bool) -> Seq<char> {
    if legacy {
        legacy_marker()
    } else {
        current_marker()
    }
}

/// Tests whether the selected marker occurs at character position `i`;
/// `lim` is a position bound within the string that makes room for it.
fn marker_at(s: &str, i: usize, legacy: bool, lim: usize) -> (r: bool)
    requires
        i + marker_spec(legacy).len() <= lim <= s@.len(),
    ensures
        r == match_at(s@, marker_spec(legacy), i as int),
{
    if legacy {
        let r = s.get_char(i) == ZERO_WIDTH_SPACE;
        proof {
            if s@[i as int] == ZERO_WIDTH_SPACE {
                assert(s@.subrange(i as int, i + 1) =~= legacy_marker());
            } else if match_at(s@, legacy_marker(), i as int) {
                assert(s@.subrange(i as int, i + 1)[0] == ZERO_WIDTH_SPACE);
                assert(false);
            }
        }
        r
    } else {
        let r = s.get_char(i) == POINT_RIGHT && s.get_char(i + 1) == POINT_LEFT;
        proof {
            if s@[i as int] == POINT_RIGHT && s@[i as int + 1] == POINT_LEFT {
                assert(s@.subrange(i as int, i + 2) =~= current_marker());
            } else if match_at(s@, current_marker(), i as int) {
                assert(s@.subrange(i as int, i + 2)[0] == POINT_RIGHT);
                assert(s@.subrange(i as int, i + 2)[1] == POINT_LEFT);
                assert(false);
            }
        }
        r
    }
}

/// Decodes a token string: detects the framing convention, strips one
/// trailing marker, splits on the marker, decodes every segment, and
/// reassembles the bytes as text with lossy UTF-8 substitution. Returns
/// `Ok` exactly when every segment is a table glyph; otherwise the error
/// names the first unrecognized segment. Never panics.
#[verifier::rlimit(100)]
pub fn decode_string(input: &str) -> (r: Result<String, TranslationError>)
    ensures
        r is Ok <==> all_segments_glyphs(input@),
        r matches Ok(out) ==> out@ == lossy_chars_of(stream_bytes(input@)),
        r matches Ok(out) ==> (valid_utf8(stream_bytes(input@)) ==> out@ == decode_utf8(
            stream_bytes(input@),
        )),
        r matches Err(e) ==> exists|k: int|
            0 <= k < segments_of(input@).len() && !is_glyph_seg(
                #[trigger] segments_of(input@)[k],
            ) && (forall|j: int| 0 <= j < k ==> is_glyph_seg(segments_of(input@)[j]))
                && e.why@ == "Cannot decode character "@ + segments_of(input@)[k],
{
    let n = input.unicode_len();
    let legacy = sniff_legacy(input);
    let mlen: usize = if legacy { 1 } else { 2 };
    let ghost m = marker_of(input@);
    proof {
        assert(m == marker_spec(legacy));
        assert(m.len() == mlen);
    }
    let mut end = n;
    if n >= mlen {
        if marker_at(input, n - mlen, legacy, n) {
            end = n - mlen;
        }
    }
    let ghost stripped = input@.take(end as int);
    proof {
        assert(stripped == strip_trailing(input@, m)) by {
            if end == n {
                assert(input@.take(n as int) =~= input@);
            }
        }
    }
    let mut bytes: Vec<u8> = Vec::new();
    let mut seg_start: usize = 0;
    let mut i: usize = 0;
    let ghost mut segs_done: Seq<Seq<char>> = Seq::empty();
    proof {
        assert(stripped.skip(0) =~= stripped);
        assert(Seq::<Seq<char>>::empty() + split_scan(stripped, m, 0) =~= split_scan(
            stripped,
            m,
            0,
        ));
    }
    while i < end
        invariant
            seg_start <= i <= end <= n == input@.len(),
            mlen == m.len(),
            1 <= mlen <= 2,
            m == marker_of(input@),
            m == marker_spec(legacy),
            stripped == input@.take(end as int),
            stripped == strip_trailing(input@, m),
            split_on(stripped, m) == segs_done + split_scan(
                stripped.skip(seg_start as int),
                m,
                i - seg_start,
            ),
            bytes@.len() == segs_done.len(),
            forall|q: int|
                0 <= q < segs_done.len() ==> #[trigger] segs_done[q] == glyph_chars(bytes@[q]),
        decreases end - i,
    {
        let ghost s_rel = stripped.skip(seg_start as int);
        let ghost j = i - seg_start;
        if end - i >= mlen && marker_at(input, i, legacy, end) {
            proof {
                assert(s_rel.subrange(j, j + mlen) =~= input@.subrange(i as int, i + mlen));
                assert(match_at(s_rel, m, j));
            }
            match decode_segment(input, seg_start, i) {
                Some(v) => {
                    bytes.push(v);
                    proof {
                        let seg = input@.subrange(seg_start as int, i as int);
                        assert(s_rel.take(j) =~= seg);
                        assert(s_rel.skip(j + mlen) =~= stripped.skip(i + mlen));
                        let x = split_scan(stripped.skip(i + mlen), m, 0);
                        assert(split_scan(s_rel, m, j) == seq![seg] + x);
                        assert(segs_done + (seq![seg] + x) =~= segs_done.push(seg) + x);
                        segs_done = segs_done.push(seg);
                    }
                    seg_start = i + mlen;
                    i = seg_start;
                },
                None => {
                    let seg_str = input.substring_char(seg_start, i);
                    proof {
                        let seg = input@.subrange(seg_start as int, i as int);
                        assert(s_rel.take(j) =~= seg);
                        let x = split_scan(s_rel.skip(j + mlen), m, 0);
                        assert(split_scan(s_rel, m, j) == seq![seg] + x);
                        let segs = segments_of(input@);
                        let k = segs_done.len() as int;
                        assert(segs == segs_done + (seq![seg] + x));
                        assert((seq![seg] + x)[0] == seg);
                        assert(segs[k] == seg);
                        assert(!is_glyph_seg(seg));
                        assert forall|q: int| 0 <= q < k implies is_glyph_seg(
                            #[trigger] segs[q],
                        ) by {
                            assert(segs[q] == segs_done[q]);
                            assert(segs_done[q] == glyph_chars(bytes@[q]));
                        }
                    }
                    return Err(unrecognized(seg_str));
                },
            }
        } else {
            proof {
                assert(!match_at(s_rel, m, j)) by {
                    if end - i >= mlen {
                        assert(s_rel.subrange(j, j + mlen) =~= input@.subrange(
                            i as int,
                            i + mlen,
                        ));
                    }
                }
            }
            i = i + 1;
        }
    }
    let ghost s_rel = stripped.skip(seg_start as int);
    proof {
        assert(s_rel.len() == end - seg_start);
        assert(!match_at(s_rel, m, end - seg_start));
        assert(split_scan(s_rel, m, end - seg_start) == seq![s_rel]);
    }
    match decode_segment(input, seg_start, end) {
        Some(v) => {
            bytes.push(v);
            proof {
                let seg = input@.subrange(seg_start as int, end as int);
                assert(s_rel =~= seg);
                assert(segs_done + seq![seg] =~= segs_done.push(seg));
                segs_done = segs_done.push(seg);
                assert(segments_of(input@) == segs_done);
                assert forall|k: int| 0 <= k < segs_done.len() implies is_glyph_seg(
                    #[trigger] segments_of(input@)[k],
                ) by {
                    assert(segs_done[k] == glyph_chars(bytes@[k]));
                }
                assert(stream_bytes(input@) =~= bytes@) by {
                    assert forall|k: int| 0 <= k < segs_done.len() implies glyph_value(
                        segments_of(input@)[k],
                    ) == bytes@[k] by {
                        assert(segs_done[k] == glyph_chars(bytes@[k]));
                        let b2 = glyph_value(segs_done[k]);
                        assert(segs_done[k] == glyph_chars(b2));
                        lemma_glyph_injective(b2, bytes@[k]);
                    }
                }
            }
            let out = bytes_to_string_lossy(&bytes);
            Ok(out)
        },
        None => {
            let seg_str = input.substring_char(seg_start, end);
            proof {
                let seg = input@.subrange(seg_start as int, end as int);
                assert(s_rel =~= seg);
                let segs = segments_of(input@);
                let k = segs_done.len() as int;
                assert(segs == segs_done + seq![seg]);
                assert(segs[k] == seg);
                assert(!is_glyph_seg(seg));
                assert forall|q: int| 0 <= q < k implies is_glyph_seg(#[trigger] segs[q]) by {
                    assert(segs[q] == segs_done[q]);
                    assert(segs_done[q] == glyph_chars(bytes@[q]));
                }
            }
            Err(unrecognized(seg_str))
        },
    }
}

/// A codepoint a framed token stream may contain: a glyph codepoint, or one
/// of the marker's codepoints.
spec fn glyph_char_or(c: char, m: Seq<char>) -> bool {
    is_unit_char(c) || c == HEART || c == HEART_SELECTOR || exists|j: int|
        0 <= j < m.len() && m[j] == c
}

/// Every codepoint of a framed stream is a glyph codepoint or a marker
/// codepoint.
proof fn lemma_stream_chars(bs: Seq<u8>, m: Seq<char>)
    ensures
        forall|i: int|
            0 <= i < token_stream_with(bs, m).len() ==> glyph_char_or(
                #[trigger] token_stream_with(bs, m)[i],
                m,
            ),
    decreases bs.len(),
{
    if bs.len() > 0 {
        lemma_stream_chars(bs.drop_first(), m);
        lemma_glyph_no_marker_chars(bs[0]);
        let s = token_stream_with(bs, m);
        let g = glyph_chars(bs[0]);
        let sr = token_stream_with(bs.drop_first(), m);
        assert forall|i: int| 0 <= i < s.len() implies glyph_char_or(s[i], m) by {
            if i < g.len() {
                assert(s[i] == g[i]);
            } else if i < g.len() + m.len() {
                assert(s[i] == m[i - g.len()]);
            } else {
                assert(s[i] == sr[i - g.len() - m.len()]);
            }
        }
    }
}

/// Scanning over a region free of the marker's first codepoint does not
/// change the split.
proof fn lemma_scan_through(s: Seq<char>, m: Seq<char>, i: int, p: int)
    requires
        1 <= m.len(),
        0 <= i <= p <= s.len(),
        forall|q: int| i <= q < p ==> #[trigger] s[q] != m[0],
    ensures
        split_scan(s, m, i) == split_scan(s, m, p),
    decreases p - i,
{
    if i < p {
        assert(!match_at(s, m, i)) by {
            if match_at(s, m, i) {
                assert(s.subrange(i, i + m.len())[0] == m[0]);
            }
        }
        lemma_scan_through(s, m, i + 1, p);
    }
}

/// A stream of byte glyphs framed with marker `m` ends with the marker, and
/// with that trailing marker removed it splits back into exactly those
/// glyphs.
proof fn lemma_stream_split(bs: Seq<u8>, m: Seq<char>)
    requires
        bs.len() >= 1,
        m == current_marker() || m == legacy_marker(),
    ensures
        ({
            let s = token_stream_with(bs, m);
            &&& s.len() >= m.len()
            &&& match_at(s, m, s.len() - m.len())
            &&& split_on(s.take(s.len() - m.len()), m) == Seq::new(
                bs.len(),
                |k: int| glyph_chars(bs[k]),
            )
        }),
    decreases bs.len(),
{
    let s = token_stream_with(bs, m);
    let g = glyph_chars(bs[0]);
    lemma_glyph_no_marker_chars(bs[0]);
    if bs.len() == 1 {
        assert(bs.drop_first().len() == 0);
        assert(token_stream_with(bs.drop_first(), m) == Seq::<char>::empty());
        assert(s == g + m + token_stream_with(bs.drop_first(), m));
        assert(s =~= g + m);
        assert(s.subrange(s.len() - m.len(), s.len() as int) =~= m);
        let stripped = s.take(s.len() - m.len());
        assert(stripped =~= g);
        assert forall|q: int| 0 <= q < g.len() implies #[trigger] g[q] != m[0] by {}
        lemma_scan_through(g, m, 0, g.len() as int);
        assert(!match_at(g, m, g.len() as int));
        assert(split_scan(g, m, g.len() as int) == seq![g]);
        assert(split_on(stripped, m) =~= Seq::new(bs.len(), |k: int| glyph_chars(bs[k])));
    } else {
        let rest = bs.drop_first();
        lemma_stream_split(rest, m);
        let sr = token_stream_with(rest, m);
        assert(s == g + m + sr);
        assert(s.len() == g.len() + m.len() + sr.len());
        assert(match_at(s, m, s.len() - m.len())) by {
            assert(s.subrange(s.len() - m.len(), s.len() as int) =~= sr.subrange(
                sr.len() - m.len(),
                sr.len() as int,
            ));
        }
        let stripped = s.take(s.len() - m.len());
        let strippedr = sr.take(sr.len() - m.len());
        assert(stripped =~= g + m + strippedr);
        assert forall|q: int| 0 <= q < g.len() implies #[trigger] stripped[q] != m[0] by {
            assert(stripped[q] == g[q]);
        }
        lemma_scan_through(stripped, m, 0, g.len() as int);
        assert(match_at(stripped, m, g.len() as int)) by {
            assert(stripped.subrange(g.len() as int, g.len() as int + m.len() as int) =~= m);
        }
        assert(split_scan(stripped, m, g.len() as int) == seq![stripped.take(g.len() as int)]
            + split_scan(stripped.skip(g.len() as int + m.len() as int), m, 0));
        assert(stripped.take(g.len() as int) =~= g);
        assert(stripped.skip(g.len() as int + m.len() as int) =~= strippedr);
        assert(split_on(stripped, m) == seq![g] + split_on(strippedr, m));
        assert(split_on(stripped, m) =~= Seq::new(bs.len(), |k: int| glyph_chars(bs[k]))) by {
            assert forall|k: int| 0 <= k < bs.len() implies (seq![g] + split_on(strippedr, m))[k]
                == glyph_chars(bs[k]) by {
                if k > 0 {
                    assert((seq![g] + split_on(strippedr, m))[k] == split_on(strippedr, m)[k - 1]);
                    assert(split_on(strippedr, m)[k - 1] == glyph_chars(rest[k - 1]));
                    assert(rest[k - 1] == bs[k]);
                }
            }
        }
    }
}

/// The framing sniff recognizes the marker a stream was framed with: glyph
/// codepoints never collide with either marker.
proof fn lemma_stream_marker(bs: Seq<u8>, m: Seq<char>)
    requires
        bs.len() >= 1,
        m == current_marker() || m == legacy_marker(),
    ensures
        marker_of(token_stream_with(bs, m)) == m,
{
    let s = token_stream_with(bs, m);
    let g = glyph_chars(bs[0]);
    lemma_stream_chars(bs, m);
    lemma_glyph_no_marker_chars(bs[0]);
    if m == legacy_marker() {
        assert(s[g.len() as int] == ZERO_WIDTH_SPACE) by {
            assert(s == g + m + token_stream_with(bs.drop_first(), m));
        }
        assert forall|j: int| 0 <= j < g.len() implies !is_sniff_char(#[trigger] s[j]) by {
            assert(s[j] == g[j]);
        }
        assert(legacy_selected(s));
    } else {
        if legacy_selected(s) {
            let i = choose|i: int|
                0 <= i < s.len() && s[i] == ZERO_WIDTH_SPACE && (forall|j: int|
                    0 <= j < i ==> !is_sniff_char(#[trigger] s[j]));
            assert(glyph_char_or(s[i], m));
            let j = choose|j: int| 0 <= j < m.len() && m[j] == s[i];
            assert(m[0] == POINT_RIGHT && m[1] == POINT_LEFT);
            assert(false);
        }
    }
}

/// A framed token stream decodes to exactly the bytes it was built from:
/// the sniff selects the right marker, the segments are the byte glyphs,
/// and their values are the original bytes. This holds for both framing
/// conventions.
pub proof fn lemma_stream_decodes(bs: Seq<u8>, m: Seq<char>)
    requires
        bs.len() >= 1,
        m == current_marker() || m == legacy_marker(),
    ensures
        ({
            let s = token_stream_with(bs, m);
            &&& segments_of(s) == Seq::new(bs.len(), |k: int| glyph_chars(bs[k]))
            &&& all_segments_glyphs(s)
            &&& stream_bytes(s) == bs
        }),
{
    let s = token_stream_with(bs, m);
    lemma_stream_marker(bs, m);
    lemma_stream_split(bs, m);
    assert(strip_trailing(s, m) == s.take(s.len() - m.len()));
    let segs = segments_of(s);
    assert(segs == Seq::new(bs.len(), |k: int| glyph_chars(bs[k])));
    assert forall|k: int| 0 <= k < segs.len() implies is_glyph_seg(#[trigger] segs[k]) by {
        assert(segs[k] == glyph_chars(bs[k]));
    }
    assert(stream_bytes(s) =~= bs) by {
        assert forall|k: int| 0 <= k < segs.len() implies glyph_value(segs[k]) == bs[k] by {
            assert(segs[k] == glyph_chars(bs[k]));
            let b2 = glyph_value(segs[k]);
            assert(segs[k] == glyph_chars(b2));
            lemma_glyph_injective(b2, bs[k]);
        }
    }
}

/// Bijectivity law, counting form: the table has exactly 256 entries — one
/// glyph for each of the 256 byte values, no two of them equal — so the
/// inverse mapping is total on exactly those 256 glyph strings.
pub proof fn lemma_table_has_256_entries()
    ensures
        Set::new(|g: Seq<char>| is_glyph_seg(g)).finite(),
        Set::new(|g: Seq<char>| is_glyph_seg(g)).len() == 256,
{
    let dom = vstd::set_lib::set_int_range(0, 256);
    vstd::set_lib::lemma_int_range(0, 256);
    let f = |v: int| glyph_chars(v as u8);
    let img = dom.map(f);
    assert(vstd::relations::injective_on(f, dom)) by {
        assert forall|a1: int, a2: int|
            dom.contains(a1) && dom.contains(a2) && #[trigger] f(a1) == #[trigger] f(a2)
                implies a1 == a2 by {
            lemma_glyph_injective(a1 as u8, a2 as u8);
        }
    }
    vstd::set_lib::lemma_map_size(dom, img, f);
    assert(img =~= Set::new(|g: Seq<char>| is_glyph_seg(g))) by {
        assert forall|g: Seq<char>| img.contains(g) implies is_glyph_seg(g) by {
            let a = choose|a: int| dom.contains(a) && #[trigger] f(a) == g;
            assert(g == glyph_chars(a as u8));
        }
        assert forall|g: Seq<char>| is_glyph_seg(g) implies img.contains(g) by {
            let b = choose|b: u8| g == glyph_chars(b);
            assert(dom.contains(b as int));
            assert(f(b as int) == g);
        }
    }
}

/// Byte-level round-trip law: the table entry `encode_byte` produces for a
/// byte is accepted by `decode_byte`, and only as that byte; together with
/// the two functions' contracts, `decode_byte` of `encode_byte(b)` returns
/// `Ok(b)` for all 256 byte values.
pub proof fn lemma_byte_round_trip(b: u8)
    ensures
        byte_token_of(glyph_with_marker(b), b),
        forall|b2: u8| byte_token_of(glyph_with_marker(b), b2) ==> b2 == b,
{
    assert forall|b2: u8| byte_token_of(glyph_with_marker(b), b2) implies b2 == b by {
        lemma_glyph_no_marker_chars(b2);
        lemma_glyph_nonempty(b);
        lemma_glyph_nonempty(b2);
        let s = glyph_with_marker(b);
        if s == glyph_chars(b2) {
            assert(s[s.len() - 1] == POINT_LEFT);
            assert(false);
        } else {
            assert(s == glyph_with_marker(b2));
            assert(glyph_chars(b).len() == glyph_chars(b2).len());
            assert(glyph_chars(b) =~= glyph_chars(b2)) by {
                assert forall|q: int| 0 <= q < glyph_chars(b).len() implies glyph_chars(b)[q]
                    == glyph_chars(b2)[q] by {
                    assert(glyph_chars(b)[q] == s[q]);
                    assert(glyph_chars(b2)[q] == s[q]);
                }
            }
            lemma_glyph_injective(b, b2);
        }
    }
}

/// String round-trip law: for non-empty text, the encoder's token stream
/// splits back into exactly the text's UTF-8 byte glyphs, those bytes are
/// valid UTF-8, and they decode to the original text; together with the
/// contracts of `encode_string` and `decode_string`, decoding an encoding
/// of any non-empty text returns that text.
pub proof fn lemma_string_round_trip(t: Seq<char>)
    requires
        t.len() > 0,
    ensures
        all_segments_glyphs(token_stream(encode_utf8(t))),
        stream_bytes(token_stream(encode_utf8(t))) == encode_utf8(t),
        valid_utf8(encode_utf8(t)),
        decode_utf8(encode_utf8(t)) == t,
{
    let bytes = encode_utf8(t);
    assert(bytes.len() >= 1) by {
        vstd::utf8::char_is_scalar(t[0]);
        assert(vstd::utf8::encode_scalar(t[0] as u32).len() >= 1);
    }
    lemma_stream_decodes(bytes, current_marker());
    vstd::utf8::encode_utf8_valid_utf8(t);
    vstd::utf8::encode_utf8_decode_utf8(t);
}

/// Backward-compatibility law: a token stream framed with the legacy
/// zero-width-space convention carries exactly the same bytes as the
/// current convention's stream for the same byte sequence, so the two
/// decode identically.
pub proof fn lemma_legacy_compat(bs: Seq<u8>)
    requires
        bs.len() >= 1,
    ensures
        all_segments_glyphs(token_stream_with(bs, legacy_marker())),
        all_segments_glyphs(token_stream_with(bs, current_marker())),
        stream_bytes(token_stream_with(bs, legacy_marker())) == bs,
        stream_bytes(token_stream_with(bs, current_marker())) == bs,
{
    lemma_stream_decodes(bs, legacy_marker());
    lemma_stream_decodes(bs, current_marker());
}

} // verus!
