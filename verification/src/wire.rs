//! Wire text: percent-encoding, the path grammar, and the `name=value`
//! pair grammar shared by the query string and the structured body payload.
//!
//! Everything here works on byte strings.  Each grammar comes with a
//! rendering function, a parsing function, and a proof that parsing undoes
//! rendering.

use vstd::prelude::*;

verus! {

/// Bytes that pass through percent-encoding unchanged.
pub open spec fn is_unreserved(b: u8) -> bool {
    (0x61 <= b && b <= 0x7a) || (0x41 <= b && b <= 0x5a) || (0x30 <= b && b <= 0x39) || b == 0x2d
        || b == 0x2e || b == 0x5f || b == 0x7e
}

/// The hexadecimal digit for a value below 16, upper case.
pub open spec fn hex_digit(n: int) -> u8 {
    if n < 10 {
        (0x30 + n) as u8
    } else {
        (0x41 + (n - 10)) as u8
    }
}

/// Upper-case hexadecimal digits, as percent-encoding emits them.
pub open spec fn is_hex_digit(b: u8) -> bool {
    (0x30 <= b && b <= 0x39) || (0x41 <= b && b <= 0x46)
}

/// The numeric value of a hexadecimal digit.
pub open spec fn hex_value(b: u8) -> int {
    if 0x30 <= b && b <= 0x39 {
        b - 0x30
    } else {
        b - 0x41 + 10
    }
}

/// Percent-encoding of one byte.
pub open spec fn encode_byte(b: u8) -> Seq<u8> {
    if is_unreserved(b) {
        seq![b]
    } else {
        seq![0x25, hex_digit(b as int / 16), hex_digit(b as int % 16)]
    }
}

/// Percent-encoding of a byte string.
pub open spec fn encode_bytes(s: Seq<u8>) -> Seq<u8>
    decreases s.len(),
{
    if s.len() == 0 {
        Seq::empty()
    } else {
        encode_byte(s[0]) + encode_bytes(s.skip(1))
    }
}

/// Percent-decoding; `None` exactly on a malformed escape.
pub open spec fn decode_bytes(s: Seq<u8>) -> Option<Seq<u8>>
    decreases s.len(),
{
    if s.len() == 0 {
        Some(Seq::empty())
    } else if s[0] == 0x25 {
        if s.len() >= 3 && is_hex_digit(s[1]) && is_hex_digit(s[2]) {
            match decode_bytes(s.skip(3)) {
                Some(r) => Some(seq![(16 * hex_value(s[1]) + hex_value(s[2])) as u8] + r),
                None => None,
            }
        } else {
            None
        }
    } else {
        match decode_bytes(s.skip(1)) {
            Some(r) => Some(seq![s[0]] + r),
            None => None,
        }
    }
}

/// Every byte that percent-encoding emits is unreserved or the escape mark.
pub proof fn lemma_encode_bytes_alphabet(s: Seq<u8>)
    ensures
        forall|i: int|
            0 <= i < encode_bytes(s).len() ==> is_unreserved(encode_bytes(s)[i]) || encode_bytes(
                s,
            )[i] == 0x25,
    decreases s.len(),
{
    if s.len() > 0 {
        lemma_encode_bytes_alphabet(s.skip(1));
        let e0 = encode_byte(s[0]);
        let e = encode_bytes(s);
        assert(0 <= s[0] as int / 16 < 16 && 0 <= s[0] as int % 16 < 16) by {
            vstd::arithmetic::div_mod::lemma_fundamental_div_mod(s[0] as int, 16);
        }
        assert forall|i: int| 0 <= i < e.len() implies is_unreserved(e[i]) || e[i] == 0x25 by {
            if i < e0.len() {
                assert(e[i] == e0[i]);
            } else {
                assert(e[i] == encode_bytes(s.skip(1))[i - e0.len()]);
            }
        }
    }
}

/// Decoding undoes encoding.
pub proof fn lemma_decode_encode(s: Seq<u8>)
    ensures
        decode_bytes(encode_bytes(s)) == Some(s),
    decreases s.len(),
{
    if s.len() == 0 {
        assert(encode_bytes(s) =~= Seq::<u8>::empty());
        assert(s =~= Seq::<u8>::empty());
    } else {
        let b = s[0];
        let e = encode_bytes(s);
        lemma_decode_encode(s.skip(1));
        if is_unreserved(b) {
            assert(e.skip(1) =~= encode_bytes(s.skip(1)));
            assert(seq![b] + s.skip(1) =~= s);
        } else {
            vstd::arithmetic::div_mod::lemma_fundamental_div_mod(b as int, 16);
            assert(e[0] == 0x25);
            assert(e.skip(3) =~= encode_bytes(s.skip(1)));
            assert(16 * hex_value(e[1]) + hex_value(e[2]) == b as int);
            assert(seq![b] + s.skip(1) =~= s);
        }
    }
}

/// Encoding distributes over concatenation.
pub proof fn lemma_encode_app(a: Seq<u8>, b: Seq<u8>)
    ensures
        encode_bytes(a + b) == encode_bytes(a) + encode_bytes(b),
    decreases a.len(),
{
    if a.len() == 0 {
        assert(a + b =~= b);
        assert(encode_bytes(a) + encode_bytes(b) =~= encode_bytes(b));
    } else {
        lemma_encode_app(a.skip(1), b);
        assert((a + b).skip(1) =~= a.skip(1) + b);
        assert(encode_byte(a[0]) + (encode_bytes(a.skip(1)) + encode_bytes(b)) =~= (encode_byte(
            a[0],
        ) + encode_bytes(a.skip(1))) + encode_bytes(b));
    }
}

/// Index of the first occurrence of a byte, or the length when absent.
pub open spec fn first_index(s: Seq<u8>, b: u8) -> nat
    decreases s.len(),
{
    if s.len() == 0 {
        0
    } else if s[0] == b {
        0
    } else {
        1 + first_index(s.skip(1), b)
    }
}

pub proof fn lemma_first_index(s: Seq<u8>, b: u8)
    ensures
        first_index(s, b) <= s.len(),
        first_index(s, b) < s.len() ==> s[first_index(s, b) as int] == b,
        forall|j: int| 0 <= j < first_index(s, b) ==> s[j] != b,
        first_index(s, b) == s.len() ==> forall|j: int| 0 <= j < s.len() ==> s[j] != b,
    decreases s.len(),
{
    if s.len() > 0 && s[0] != b {
        lemma_first_index(s.skip(1), b);
        assert forall|j: int| 0 <= j < first_index(s, b) implies s[j] != b by {
            if j > 0 {
                assert(s.skip(1)[j - 1] == s[j]);
            }
        }
        if first_index(s, b) < s.len() {
            assert(s.skip(1)[first_index(s.skip(1), b) as int] == s[first_index(s, b) as int]);
        }
        if first_index(s, b) == s.len() {
            assert forall|j: int| 0 <= j < s.len() implies s[j] != b by {
                if j > 0 {
                    assert(s.skip(1)[j - 1] == s[j]);
                }
            }
        }
    }
}

/// In `x + y` where `x` avoids the byte and `y` is empty or starts with it,
/// the first occurrence sits exactly at the end of `x`.
pub proof fn lemma_first_index_concat(x: Seq<u8>, y: Seq<u8>, b: u8)
    requires
        forall|j: int| 0 <= j < x.len() ==> x[j] != b,
        y.len() == 0 || y[0] == b,
    ensures
        first_index(x + y, b) == x.len(),
    decreases x.len(),
{
    if x.len() == 0 {
        assert(x + y =~= y);
    } else {
        lemma_first_index_concat(x.skip(1), y, b);
        assert((x + y).skip(1) =~= x.skip(1) + y);
        assert((x + y)[0] == x[0]);
    }
}

/// Parts joined with a separator byte between neighbours.
pub open spec fn joined(parts: Seq<Seq<u8>>, sep: u8) -> Seq<u8>
    decreases parts.len(),
{
    if parts.len() == 0 {
        Seq::empty()
    } else if parts.len() == 1 {
        parts[0]
    } else {
        parts[0] + seq![sep] + joined(parts.skip(1), sep)
    }
}

/// Split at every occurrence of the separator.
pub open spec fn split_on(s: Seq<u8>, sep: u8) -> Seq<Seq<u8>>
    decreases s.len(),
{
    let k = first_index(s, sep);
    if k >= s.len() {
        seq![s]
    } else {
        seq![s.take(k as int)] + split_on(s.skip(k as int + 1), sep)
    }
}

/// Splitting undoes joining when no part contains the separator.
pub proof fn lemma_split_joined(parts: Seq<Seq<u8>>, sep: u8)
    requires
        parts.len() > 0,
        forall|i: int, j: int|
            0 <= i < parts.len() && 0 <= j < parts[i].len() ==> #[trigger] parts[i][j] != sep,
    ensures
        split_on(joined(parts, sep), sep) == parts,
    decreases parts.len(),
{
    let s = joined(parts, sep);
    if parts.len() == 1 {
        lemma_first_index(s, sep);
        assert(first_index(s, sep) == s.len()) by {
            if first_index(s, sep) < s.len() {
                assert(parts[0][first_index(s, sep) as int] == sep);
            }
        }
        assert(split_on(s, sep) =~= parts);
    } else {
        let rest = joined(parts.skip(1), sep);
        assert(s == parts[0] + seq![sep] + rest);
        assert(s =~= parts[0] + (seq![sep] + rest));
        lemma_first_index_concat(parts[0], seq![sep] + rest, sep);
        let k = first_index(s, sep);
        assert(k == parts[0].len());
        assert(s.take(k as int) =~= parts[0]);
        assert(s.skip(k as int + 1) =~= rest);
        lemma_split_joined(parts.skip(1), sep);
        assert(seq![parts[0]] + parts.skip(1) =~= parts);
    }
}

/// One `name=value` pair, the value percent-encoded.
pub open spec fn render_kv(name: Seq<u8>, value: Seq<u8>) -> Seq<u8> {
    name + seq![0x3d] + encode_bytes(value)
}

/// Parse one `name=value` chunk; the name is the text before the first `=`.
pub open spec fn parse_kv(c: Seq<u8>) -> Option<(Seq<u8>, Seq<u8>)> {
    let k = first_index(c, 0x3d);
    if k == c.len() {
        None
    } else {
        match decode_bytes(c.skip(k as int + 1)) {
            Some(v) => Some((c.take(k as int), v)),
            None => None,
        }
    }
}

/// A field name fit for the wire: non-empty, lower-case unreserved bytes.
pub open spec fn valid_wire_name(n: Seq<u8>) -> bool {
    n.len() > 0 && forall|j: int|
        0 <= j < n.len() ==> is_unreserved(#[trigger] n[j]) && !(0x41 <= n[j] && n[j] <= 0x5a)
}

/// Each pair rendered as its own `name=value` chunk.
pub open spec fn rendered_chunks(ps: Seq<(Seq<u8>, Seq<u8>)>) -> Seq<Seq<u8>> {
    ps.map_values(|p: (Seq<u8>, Seq<u8>)| render_kv(p.0, p.1))
}

/// Pairs rendered as `name=value`, `&`-joined.
pub open spec fn render_pairs(ps: Seq<(Seq<u8>, Seq<u8>)>) -> Seq<u8> {
    if ps.len() == 0 {
        Seq::empty()
    } else {
        joined(rendered_chunks(ps), 0x26)
    }
}

/// Parse each chunk of a split pair list.
pub open spec fn parse_chunks(cs: Seq<Seq<u8>>) -> Option<Seq<(Seq<u8>, Seq<u8>)>>
    decreases cs.len(),
{
    if cs.len() == 0 {
        Some(Seq::empty())
    } else {
        match parse_kv(cs[0]) {
            Some(kv) => match parse_chunks(cs.skip(1)) {
                Some(r) => Some(seq![kv] + r),
                None => None,
            },
            None => None,
        }
    }
}

/// Parse a `&`-joined pair list; the empty string holds no pairs.
pub open spec fn parse_pairs(s: Seq<u8>) -> Option<Seq<(Seq<u8>, Seq<u8>)>> {
    if s.len() == 0 {
        Some(Seq::empty())
    } else {
        parse_chunks(split_on(s, 0x26))
    }
}

/// Parsing one rendered pair gives the pair back.
proof fn lemma_parse_render_kv(name: Seq<u8>, value: Seq<u8>)
    requires
        valid_wire_name(name),
    ensures
        parse_kv(render_kv(name, value)) == Some((name, value)),
{
    let c = render_kv(name, value);
    assert(c =~= name + (seq![0x3d] + encode_bytes(value)));
    lemma_first_index_concat(name, seq![0x3d] + encode_bytes(value), 0x3d);
    let k = first_index(c, 0x3d);
    assert(k == name.len());
    assert(c.take(k as int) =~= name);
    assert(c.skip(k as int + 1) =~= encode_bytes(value));
    lemma_decode_encode(value);
}

/// No rendered pair contains a bare `&` or starts ambiguously: every byte of
/// a rendered pair is an unreserved byte, `%`, or `=`.
proof fn lemma_render_kv_no_amp(name: Seq<u8>, value: Seq<u8>)
    requires
        valid_wire_name(name),
    ensures
        forall|j: int| 0 <= j < render_kv(name, value).len() ==> render_kv(name, value)[j] != 0x26,
{
    let c = render_kv(name, value);
    lemma_encode_bytes_alphabet(value);
    assert forall|j: int| 0 <= j < c.len() implies c[j] != 0x26 by {
        if j < name.len() {
            assert(c[j] == name[j]);
        } else if j == name.len() {
            assert(c[j] == 0x3d);
        } else {
            assert(c[j] == encode_bytes(value)[j - name.len() - 1]);
        }
    }
}

/// Parsing undoes rendering for any pair list with wire-fit names.
pub proof fn lemma_parse_render_pairs(ps: Seq<(Seq<u8>, Seq<u8>)>)
    requires
        forall|i: int| 0 <= i < ps.len() ==> valid_wire_name(#[trigger] ps[i].0),
    ensures
        parse_pairs(render_pairs(ps)) == Some(ps),
{
    if ps.len() == 0 {
    } else {
        let cs = rendered_chunks(ps);
        assert forall|i: int, j: int|
            0 <= i < cs.len() && 0 <= j < cs[i].len() implies #[trigger] cs[i][j] != 0x26 by {
            lemma_render_kv_no_amp(ps[i].0, ps[i].1);
        }
        lemma_split_joined(cs, 0x26);
        assert(cs[0].len() > 0);
        assert(joined(cs, 0x26).len() > 0) by {
            if cs.len() > 1 {
                assert(joined(cs, 0x26)[0] == cs[0][0]);
            }
        }
        lemma_parse_chunks_render(ps);
    }
}

proof fn lemma_parse_chunks_render(ps: Seq<(Seq<u8>, Seq<u8>)>)
    requires
        forall|i: int| 0 <= i < ps.len() ==> valid_wire_name(#[trigger] ps[i].0),
    ensures
        parse_chunks(rendered_chunks(ps)) == Some(ps),
    decreases ps.len(),
{
    let cs = rendered_chunks(ps);
    if ps.len() == 0 {
        assert(parse_chunks(cs) =~= Some(Seq::<(Seq<u8>, Seq<u8>)>::empty()));
        assert(Some(Seq::<(Seq<u8>, Seq<u8>)>::empty()) =~= Some(ps));
    } else {
        lemma_parse_render_kv(ps[0].0, ps[0].1);
        lemma_parse_chunks_render(ps.skip(1));
        assert(cs.skip(1) =~= rendered_chunks(ps.skip(1)));
        assert(seq![ps[0]] + ps.skip(1) =~= ps);
    }
}

/// A path rendered from its segments: `/` before each segment.
pub open spec fn render_path(segs: Seq<Seq<u8>>) -> Seq<u8>
    decreases segs.len(),
{
    if segs.len() == 0 {
        Seq::empty()
    } else {
        seq![0x2f] + segs[0] + render_path(segs.skip(1))
    }
}

/// Parse a path into its segments; `None` unless every segment is preceded
/// by `/`.
pub open spec fn parse_path(s: Seq<u8>) -> Option<Seq<Seq<u8>>>
    decreases s.len(),
{
    if s.len() == 0 {
        Some(Seq::empty())
    } else if s[0] == 0x2f {
        let t = s.skip(1);
        let k = first_index(t, 0x2f);
        if k >= t.len() {
            Some(seq![t])
        } else {
            match parse_path(t.skip(k as int)) {
                Some(r) => Some(seq![t.take(k as int)] + r),
                None => None,
            }
        }
    } else {
        None
    }
}

/// Parsing undoes rendering for any segment list whose segments avoid `/`.
pub proof fn lemma_parse_render_path(segs: Seq<Seq<u8>>)
    requires
        forall|i: int, j: int|
            0 <= i < segs.len() && 0 <= j < segs[i].len() ==> #[trigger] segs[i][j] != 0x2f,
    ensures
        parse_path(render_path(segs)) == Some(segs),
    decreases segs.len(),
{
    let s = render_path(segs);
    if segs.len() == 0 {
    } else {
        let rest = render_path(segs.skip(1));
        assert(rest.len() == 0 || rest[0] == 0x2f);
        assert(s[0] == 0x2f);
        assert(s.skip(1) =~= segs[0] + rest);
        lemma_first_index_concat(segs[0], rest, 0x2f);
        let k = first_index(s.skip(1), 0x2f);
        assert(k == segs[0].len());
        assert(s.skip(1).take(k as int) =~= segs[0]);
        assert(s.skip(1).skip(k as int) =~= rest);
        lemma_parse_render_path(segs.skip(1));
        assert(seq![segs[0]] + segs.skip(1) =~= segs);
    }
}


/// View of a list of byte vectors as a list of byte strings.
pub open spec fn bytes_view(v: Seq<Vec<u8>>) -> Seq<Seq<u8>> {
    v.map_values(|x: Vec<u8>| x@)
}

/// View of a list of byte-vector pairs as a list of byte-string pairs.
pub open spec fn pairs_view(v: Seq<(Vec<u8>, Vec<u8>)>) -> Seq<(Seq<u8>, Seq<u8>)> {
    v.map_values(|p: (Vec<u8>, Vec<u8>)| (p.0@, p.1@))
}

/// Append a byte slice to a byte vector.
pub fn push_all(dst: &mut Vec<u8>, src: &[u8])
    ensures
        final(dst)@ == old(dst)@ + src@,
{
    let mut i: usize = 0;
    while i < src.len()
        invariant
            0 <= i <= src@.len(),
            dst@ == old(dst)@ + src@.take(i as int),
        decreases src@.len() - i,
    {
        dst.push(src[i]);
        proof {
            assert(old(dst)@ + src@.take(i as int) + seq![src@[i as int]] =~= old(dst)@
                + src@.take(i + 1));
        }
        i = i + 1;
    }
    proof {
        assert(src@.take(src@.len() as int) =~= src@);
    }
}

/// Copy the byte range `[a, b)` out of a slice.
pub fn copy_range(s: &[u8], a: usize, b: usize) -> (r: Vec<u8>)
    requires
        a <= b <= s@.len(),
    ensures
        r@ == s@.subrange(a as int, b as int),
{
    let mut r: Vec<u8> = Vec::new();
    let mut i: usize = a;
    while i < b
        invariant
            a <= i <= b <= s@.len(),
            r@ == s@.subrange(a as int, i as int),
        decreases b - i,
    {
        r.push(s[i]);
        proof {
            assert(s@.subrange(a as int, i as int) + seq![s@[i as int]] =~= s@.subrange(
                a as int,
                i + 1,
            ));
        }
        i = i + 1;
    }
    r
}

/// A position with no earlier occurrence pins down `first_index`.
proof fn lemma_first_index_at(s: Seq<u8>, b: u8, p: int)
    requires
        0 <= p <= s.len(),
        p < s.len() ==> s[p] == b,
        forall|j: int| 0 <= j < p ==> s[j] != b,
    ensures
        first_index(s, b) == p,
    decreases p,
{
    if p > 0 {
        lemma_first_index_at(s.skip(1), b, p - 1);
        assert forall|j: int| 0 <= j < p - 1 implies s.skip(1)[j] != b by {
            assert(s.skip(1)[j] == s[j + 1]);
        }
    }
}

/// Find the first occurrence of a byte in `[from, end)`, or `end`.
pub fn find_byte(s: &[u8], from: usize, end: usize, b: u8) -> (r: usize)
    requires
        from <= end <= s@.len(),
    ensures
        from <= r <= end,
        r < end ==> s@[r as int] == b,
        forall|j: int| from <= j < r ==> s@[j] != b,
    decreases end - from,
{
    let mut i: usize = from;
    while i < end
        invariant
            from <= i <= end <= s@.len(),
            forall|j: int| from <= j < i ==> s@[j] != b,
        decreases end - i,
    {
        if s[i] == b {
            return i;
        }
        i = i + 1;
    }
    end
}

/// The hexadecimal digit byte for a value below 16.
fn hex_digit_exec(n: u8) -> (r: u8)
    requires
        n < 16,
    ensures
        r == hex_digit(n as int),
{
    if n < 10 {
        0x30 + n
    } else {
        0x41 + (n - 10)
    }
}

/// The value of a hexadecimal digit byte.
fn hex_value_exec(b: u8) -> (r: u8)
    requires
        is_hex_digit(b),
    ensures
        r as int == hex_value(b),
{
    if b <= 0x39 {
        b - 0x30
    } else {
        b - 0x41 + 10
    }
}

/// Percent-encode a byte string.
pub fn percent_encode(s: &[u8]) -> (r: Vec<u8>)
    ensures
        r@ == encode_bytes(s@),
{
    let mut out: Vec<u8> = Vec::new();
    let mut i: usize = 0;
    while i < s.len()
        invariant
            0 <= i <= s@.len(),
            out@ == encode_bytes(s@.take(i as int)),
        decreases s@.len() - i,
    {
        let b = s[i];
        proof {
            lemma_encode_app(s@.take(i as int), seq![b]);
            assert(s@.take(i as int) + seq![b] =~= s@.take(i + 1));
            assert(seq![b].skip(1) =~= Seq::<u8>::empty());
            assert(encode_bytes(Seq::<u8>::empty()) == Seq::<u8>::empty());
            assert(encode_bytes(seq![b]) == encode_byte(b) + encode_bytes(Seq::<u8>::empty()));
            assert(encode_bytes(seq![b]) =~= encode_byte(b));
        }
        if (0x61 <= b && b <= 0x7a) || (0x41 <= b && b <= 0x5a) || (0x30 <= b && b <= 0x39)
            || b == 0x2d || b == 0x2e || b == 0x5f || b == 0x7e {
            out.push(b);
            proof {
                assert(out@ =~= encode_bytes(s@.take(i + 1)));
            }
        } else {
            proof {
                vstd::arithmetic::div_mod::lemma_fundamental_div_mod(b as int, 16);
            }
            out.push(0x25);
            out.push(hex_digit_exec(b / 16));
            out.push(hex_digit_exec(b % 16));
            proof {
                assert(out@ =~= encode_bytes(s@.take(i + 1)));
            }
        }
        i = i + 1;
    }
    proof {
        assert(s@.take(s@.len() as int) =~= s@);
    }
    out
}

/// Percent-decode the suffix of a byte string that starts at `i`.
fn decode_from(s: &[u8], i: usize) -> (r: Option<Vec<u8>>)
    requires
        i <= s@.len(),
    ensures
        match r {
            Some(v) => decode_bytes(s@.skip(i as int)) == Some(v@),
            None => decode_bytes(s@.skip(i as int)) is None,
        },
    decreases s@.len() - i,
{
    let ghost t = s@.skip(i as int);
    if i == s.len() {
        proof {
            assert(t =~= Seq::<u8>::empty());
        }
        Some(Vec::new())
    } else if s[i] == 0x25 {
        proof {
            assert(t[0] == s@[i as int]);
        }
        if s.len() - i >= 3 {
            proof {
                assert(t[1] == s@[i + 1] && t[2] == s@[i + 2]);
            }
            let h1 = s[i + 1];
            let h2 = s[i + 2];
            let h1_ok = (0x30 <= h1 && h1 <= 0x39) || (0x41 <= h1 && h1 <= 0x46);
            let h2_ok = (0x30 <= h2 && h2 <= 0x39) || (0x41 <= h2 && h2 <= 0x46);
            if h1_ok && h2_ok {
                let c = 16 * hex_value_exec(h1) + hex_value_exec(h2);
                match decode_from(s, i + 3) {
                    Some(mut v) => {
                        proof {
                            assert(t.skip(3) =~= s@.skip(i + 3));
                        }
                        v.insert(0, c);
                        proof {
                            let rest = decode_bytes(s@.skip(i + 3))->Some_0;
                            assert(seq![c] + rest =~= rest.insert(0, c));
                        }
                        Some(v)
                    },
                    None => {
                        proof {
                            assert(t.skip(3) =~= s@.skip(i + 3));
                        }
                        None
                    },
                }
            } else {
                None
            }
        } else {
            None
        }
    } else {
        proof {
            assert(t[0] == s@[i as int]);
            assert(t.skip(1) =~= s@.skip(i + 1));
        }
        let c = s[i];
        match decode_from(s, i + 1) {
            Some(mut v) => {
                v.insert(0, c);
                proof {
                    let rest = decode_bytes(s@.skip(i + 1))->Some_0;
                    assert(seq![c] + rest =~= rest.insert(0, c));
                }
                Some(v)
            },
            None => None,
        }
    }
}

/// Percent-decode a byte string; `None` exactly on a malformed escape.
pub fn percent_decode(s: &[u8]) -> (r: Option<Vec<u8>>)
    ensures
        match r {
            Some(v) => decode_bytes(s@) == Some(v@),
            None => decode_bytes(s@) is None,
        },
{
    proof {
        assert(s@.skip(0) =~= s@);
    }
    decode_from(s, 0)
}

/// Appending one more part to a joined list.
proof fn lemma_joined_push(parts: Seq<Seq<u8>>, p: Seq<u8>, sep: u8)
    ensures
        joined(parts.push(p), sep) == if parts.len() == 0 {
            p
        } else {
            joined(parts, sep) + seq![sep] + p
        },
    decreases parts.len(),
{
    if parts.len() == 0 {
        assert(joined(parts.push(p), sep) == parts.push(p)[0]);
        assert(parts.push(p)[0] == p);
    } else if parts.len() == 1 {
        assert(parts.push(p).skip(1) =~= seq![p]);
        assert(parts.push(p)[0] == parts[0]);
        assert(seq![p].len() == 1);
        assert(joined(seq![p], sep) == p);
        assert(joined(parts.push(p), sep) == parts[0] + seq![sep] + joined(
            parts.push(p).skip(1),
            sep,
        ));
        assert(joined(parts.push(p), sep) == parts[0] + seq![sep] + p);
        assert(joined(parts, sep) + seq![sep] + p =~= parts[0] + seq![sep] + p);
    } else {
        lemma_joined_push(parts.skip(1), p, sep);
        assert(parts.push(p).skip(1) =~= parts.skip(1).push(p));
        assert(parts[0] + seq![sep] + (joined(parts.skip(1), sep) + seq![sep] + p) =~= (parts[0]
            + seq![sep] + joined(parts.skip(1), sep)) + seq![sep] + p);
    }
}

/// Render a pair list as `name=value` chunks joined by `&`.
pub fn render_pairs_exec(ps: &Vec<(Vec<u8>, Vec<u8>)>) -> (r: Vec<u8>)
    ensures
        r@ == render_pairs(pairs_view(ps@)),
{
    let mut out: Vec<u8> = Vec::new();
    let mut i: usize = 0;
    while i < ps.len()
        invariant
            0 <= i <= ps@.len(),
            out@ == joined(rendered_chunks(pairs_view(ps@.take(i as int))), 0x26),
        decreases ps@.len() - i,
    {
        let ghost prev = rendered_chunks(pairs_view(ps@.take(i as int)));
        let ghost kv = render_kv(ps@[i as int].0@, ps@[i as int].1@);
        proof {
            assert forall|j: int| 0 <= j <= i as int implies #[trigger] rendered_chunks(
                pairs_view(ps@.take(i + 1)),
            )[j] == prev.push(kv)[j] by {
                assert(pairs_view(ps@.take(i + 1))[j] == (
                    ps@.take(i + 1)[j].0@,
                    ps@.take(i + 1)[j].1@,
                ));
                if j < i as int {
                    assert(ps@.take(i + 1)[j] == ps@[j]);
                    assert(ps@.take(i as int)[j] == ps@[j]);
                    assert(pairs_view(ps@.take(i as int))[j] == (ps@[j].0@, ps@[j].1@));
                } else {
                    assert(ps@.take(i + 1)[j] == ps@[i as int]);
                }
            }
            assert(rendered_chunks(pairs_view(ps@.take(i + 1))) =~= prev.push(kv));
            lemma_joined_push(prev, kv, 0x26);
        }
        if i > 0 {
            out.push(0x26);
        }
        push_all(&mut out, ps[i].0.as_slice());
        out.push(0x3d);
        let enc = percent_encode(ps[i].1.as_slice());
        push_all(&mut out, enc.as_slice());
        proof {
            assert(out@ =~= joined(rendered_chunks(pairs_view(ps@.take(i + 1))), 0x26));
        }
        i = i + 1;
    }
    proof {
        assert(ps@.take(ps@.len() as int) =~= ps@);
        if ps@.len() == 0 {
            assert(out@ =~= render_pairs(pairs_view(ps@)));
        }
    }
    out
}

/// Parse the `&`-joined pair chunks of the byte range starting at `i`.
fn parse_pairs_from(s: &[u8], i: usize) -> (r: Option<Vec<(Vec<u8>, Vec<u8>)>>)
    requires
        i <= s@.len(),
    ensures
        match r {
            Some(v) => parse_chunks(split_on(s@.skip(i as int), 0x26)) == Some(pairs_view(v@)),
            None => parse_chunks(split_on(s@.skip(i as int), 0x26)) is None,
        },
    decreases s@.len() - i,
{
    let ghost t = s@.skip(i as int);
    let k = find_byte(s, i, s.len(), 0x26);
    proof {
        assert forall|j: int| 0 <= j < k - i implies #[trigger] t[j] != 0x26 by {
            assert(t[j] == s@[i + j]);
        }
        lemma_first_index_at(t, 0x26, k - i);
    }
    let ghost chunk = if k as int - i < t.len() { t.take(k - i) } else { t };
    let ghost cs = split_on(t, 0x26);
    proof {
        if k < s.len() {
            assert(chunk =~= s@.subrange(i as int, k as int));
            assert(t.skip(k - i + 1) =~= s@.skip(k + 1));
            assert(cs == seq![chunk] + split_on(s@.skip(k + 1), 0x26));
            assert(cs[0] == chunk);
            assert(cs.skip(1) =~= split_on(s@.skip(k + 1), 0x26));
        } else {
            assert(chunk =~= s@.subrange(i as int, k as int));
            assert(cs == seq![t]);
            assert(cs[0] == chunk);
            assert(cs.skip(1) =~= Seq::<Seq<u8>>::empty());
        }
    }
    let e = find_byte(s, i, k, 0x3d);
    proof {
        assert forall|j: int| 0 <= j < e - i implies #[trigger] chunk[j] != 0x3d by {
            assert(chunk[j] == s@[i + j]);
        }
        lemma_first_index_at(chunk, 0x3d, e - i);
    }
    if e == k {
        return None;
    }
    let name = copy_range(s, i, e);
    let encv = copy_range(s, e + 1, k);
    proof {
        assert(chunk.skip(e - i + 1) =~= s@.subrange(e + 1, k as int));
        assert(chunk.take(e - i) =~= s@.subrange(i as int, e as int));
    }
    let value = match percent_decode(encv.as_slice()) {
        Some(v) => v,
        None => {
            return None;
        },
    };
    let ghost kv = (chunk.take(e - i), decode_bytes(chunk.skip(e - i + 1))->Some_0);
    if k == s.len() {
        let mut out: Vec<(Vec<u8>, Vec<u8>)> = Vec::new();
        out.push((name, value));
        proof {
            assert(parse_chunks(cs.skip(1)) == Some(Seq::<(Seq<u8>, Seq<u8>)>::empty()));
            assert(seq![kv] + Seq::<(Seq<u8>, Seq<u8>)>::empty() =~= seq![kv]);
            assert(pairs_view(out@) =~= seq![kv]);
        }
        Some(out)
    } else {
        match parse_pairs_from(s, k + 1) {
            Some(mut v) => {
                v.insert(0, (name, value));
                proof {
                    let rest = parse_chunks(split_on(s@.skip(k + 1), 0x26))->Some_0;
                    assert(pairs_view(v@) =~= seq![kv] + rest);
                }
                Some(v)
            },
            None => None,
        }
    }
}

/// Parse a `&`-joined pair list; the empty string holds no pairs.
pub fn parse_pairs_exec(s: &[u8]) -> (r: Option<Vec<(Vec<u8>, Vec<u8>)>>)
    ensures
        match r {
            Some(v) => parse_pairs(s@) == Some(pairs_view(v@)),
            None => parse_pairs(s@) is None,
        },
{
    if s.len() == 0 {
        let out: Vec<(Vec<u8>, Vec<u8>)> = Vec::new();
        proof {
            assert(pairs_view(out@) =~= Seq::<(Seq<u8>, Seq<u8>)>::empty());
        }
        Some(out)
    } else {
        proof {
            assert(s@.skip(0) =~= s@);
        }
        parse_pairs_from(s, 0)
    }
}

/// Rendering distributes over segment-list concatenation.
proof fn lemma_render_path_app(a: Seq<Seq<u8>>, b: Seq<Seq<u8>>)
    ensures
        render_path(a + b) == render_path(a) + render_path(b),
    decreases a.len(),
{
    if a.len() == 0 {
        assert(a + b =~= b);
        assert(render_path(a) + render_path(b) =~= render_path(b));
    } else {
        lemma_render_path_app(a.skip(1), b);
        assert((a + b).skip(1) =~= a.skip(1) + b);
        assert((a + b)[0] == a[0]);
        assert(seq![0x2fu8] + a[0] + (render_path(a.skip(1)) + render_path(b)) =~= (seq![0x2fu8]
            + a[0] + render_path(a.skip(1))) + render_path(b));
    }
}

/// Render a path from its segments: `/` before each segment.
pub fn render_path_exec(segs: &Vec<Vec<u8>>) -> (r: Vec<u8>)
    ensures
        r@ == render_path(bytes_view(segs@)),
{
    let mut out: Vec<u8> = Vec::new();
    let mut i: usize = 0;
    while i < segs.len()
        invariant
            0 <= i <= segs@.len(),
            out@ == render_path(bytes_view(segs@.take(i as int))),
        decreases segs@.len() - i,
    {
        proof {
            lemma_render_path_app(bytes_view(segs@.take(i as int)), seq![segs@[i as int]@]);
            assert(bytes_view(segs@.take(i as int)) + seq![segs@[i as int]@] =~= bytes_view(
                segs@.take(i + 1),
            ));
            assert(seq![segs@[i as int]@].skip(1) =~= Seq::<Seq<u8>>::empty());
            assert(render_path(Seq::<Seq<u8>>::empty()) == Seq::<u8>::empty());
            assert(render_path(seq![segs@[i as int]@]) == seq![0x2fu8] + segs@[i as int]@
                + render_path(Seq::<Seq<u8>>::empty()));
            assert(render_path(seq![segs@[i as int]@]) =~= seq![0x2fu8] + segs@[i as int]@);
        }
        out.push(0x2f);
        push_all(&mut out, segs[i].as_slice());
        proof {
            assert(out@ =~= render_path(bytes_view(segs@.take(i + 1))));
        }
        i = i + 1;
    }
    proof {
        assert(segs@.take(segs@.len() as int) =~= segs@);
    }
    out
}

/// Parse the path segments of the byte range starting at `i`.
fn parse_path_from(s: &[u8], i: usize) -> (r: Option<Vec<Vec<u8>>>)
    requires
        i <= s@.len(),
    ensures
        match r {
            Some(v) => parse_path(s@.skip(i as int)) == Some(bytes_view(v@)),
            None => parse_path(s@.skip(i as int)) is None,
        },
    decreases s@.len() - i,
{
    let ghost t = s@.skip(i as int);
    if i == s.len() {
        let out: Vec<Vec<u8>> = Vec::new();
        proof {
            assert(t =~= Seq::<u8>::empty());
            assert(bytes_view(out@) =~= Seq::<Seq<u8>>::empty());
        }
        Some(out)
    } else if s[i] != 0x2f {
        proof {
            assert(t[0] == s@[i as int]);
        }
        None
    } else {
        proof {
            assert(t[0] == s@[i as int]);
            assert(t.skip(1) =~= s@.skip(i + 1));
        }
        let k = find_byte(s, i + 1, s.len(), 0x2f);
        proof {
            assert forall|j: int| 0 <= j < k - i - 1 implies #[trigger] s@.skip(i + 1)[j]
                != 0x2f by {
                assert(s@.skip(i + 1)[j] == s@[i + 1 + j]);
            }
            lemma_first_index_at(s@.skip(i + 1), 0x2f, k - i - 1);
        }
        let seg = copy_range(s, i + 1, k);
        proof {
            if k < s.len() {
                assert(s@.skip(i + 1).take(k - i - 1) =~= s@.subrange(i + 1, k as int));
            } else {
                assert(s@.skip(i + 1) =~= s@.subrange(i + 1, k as int));
            }
        }
        if k == s.len() {
            let mut out: Vec<Vec<u8>> = Vec::new();
            out.push(seg);
            proof {
                assert(bytes_view(out@) =~= seq![s@.subrange(i + 1, k as int)]);
            }
            Some(out)
        } else {
            proof {
                assert(s@.skip(i + 1).skip(k - i - 1) =~= s@.skip(k as int));
            }
            match parse_path_from(s, k) {
                Some(mut v) => {
                    v.insert(0, seg);
                    proof {
                        let rest = parse_path(s@.skip(k as int))->Some_0;
                        assert(bytes_view(v@) =~= seq![s@.subrange(i + 1, k as int)] + rest);
                    }
                    Some(v)
                },
                None => None,
            }
        }
    }
}

/// Parse a path into its segments.
pub fn parse_path_exec(s: &[u8]) -> (r: Option<Vec<Vec<u8>>>)
    ensures
        match r {
            Some(v) => parse_path(s@) == Some(bytes_view(v@)),
            None => parse_path(s@) is None,
        },
{
    proof {
        assert(s@.skip(0) =~= s@);
    }
    parse_path_from(s, 0)
}

} // verus!

