//! Byte-level operations on a single row of UTF-8 text.
//!
//! A row is a `Vec<u8>` holding valid UTF-8. Cursor columns are byte offsets
//! that must fall on character boundaries; every operation here preserves
//! validity and returns boundary offsets, which is what keeps the editor's
//! byte-accurate cursor sound under every mutation.

use vstd::prelude::*;
use vstd::utf8::*;

verus! {

broadcast use vstd::seq_lib::group_seq_lib_default, vstd::seq::group_seq_axioms;

/// The result of splicing `ins` into `s` in place of the byte range `[from, to)`.
pub open spec fn splice(s: Seq<u8>, from: int, to: int, ins: Seq<u8>) -> Seq<u8>
    recommends
        0 <= from <= to <= s.len(),
{
    s.subrange(0, from) + ins + s.subrange(to, s.len() as int)
}

/// For valid UTF-8, an interior offset is a character boundary exactly when
/// the byte there is not a continuation byte; the end offset always is one.
pub proof fn lemma_boundary_char(s: Seq<u8>, i: int)
    requires
        valid_utf8(s),
        0 <= i <= s.len(),
    ensures
        is_char_boundary(s, i) <==> (i == s.len() || !is_continuation_byte(s[i])),
{
    is_char_boundary_start_end_of_seq(s);
    if i < s.len() {
        is_char_boundary_iff_not_is_continuation_byte(s, i);
    }
}

/// Splicing valid UTF-8 into a valid row between two character boundaries
/// yields valid UTF-8.
pub proof fn lemma_splice_valid(s: Seq<u8>, from: int, to: int, ins: Seq<u8>)
    requires
        valid_utf8(s),
        valid_utf8(ins),
        0 <= from <= to <= s.len(),
        is_char_boundary(s, from),
        is_char_boundary(s, to),
    ensures
        valid_utf8(splice(s, from, to, ins)),
{
    valid_utf8_split(s, from);
    valid_utf8_split(s, to);
    let pre = s.subrange(0, from);
    let post = s.subrange(to, s.len() as int);
    assert(s.subrange(to, s.len() as int) =~= s.subrange(from, s.len() as int).subrange(
        to - from,
        s.len() - from,
    ));
    let tail = s.subrange(from, s.len() as int);
    assert(is_char_boundary(tail, to - from)) by {
        lemma_boundary_char(s, to);
        lemma_boundary_char(tail, to - from);
    }
    valid_utf8_split(tail, to - from);
    valid_utf8_concat(pre, ins);
    valid_utf8_concat(pre + ins, post);
    assert(splice(s, from, to, ins) =~= (pre + ins) + post);
}

/// In a valid row, every character boundary of a spliced-in piece carries over
/// to the spliced row, shifted by the prefix length.
pub proof fn lemma_splice_boundary(s: Seq<u8>, from: int, to: int, ins: Seq<u8>, k: int)
    requires
        valid_utf8(s),
        valid_utf8(ins),
        0 <= from <= to <= s.len(),
        is_char_boundary(s, from),
        is_char_boundary(s, to),
        0 <= k <= ins.len(),
        is_char_boundary(ins, k),
    ensures
        is_char_boundary(splice(s, from, to, ins), from + k),
{
    let r = splice(s, from, to, ins);
    lemma_splice_valid(s, from, to, ins);
    lemma_boundary_char(r, from + k);
    if from + k < r.len() {
        if k < ins.len() {
            lemma_boundary_char(ins, k);
            assert(r[from + k] == ins[k]);
        } else {
            // from + k points at the first byte of the suffix
            let post = s.subrange(to, s.len() as int);
            assert(r[from + k] == post[0]);
            valid_utf8_split(s, to);
            lemma_boundary_char(post, 0);
            is_char_boundary_start_end_of_seq(post);
        }
    }
}

/// The junction of two valid rows is a character boundary of their
/// concatenation.
pub proof fn lemma_concat_boundary(a: Seq<u8>, b: Seq<u8>)
    requires
        valid_utf8(a),
        valid_utf8(b),
    ensures
        valid_utf8(a + b),
        is_char_boundary(a + b, a.len() as int),
{
    valid_utf8_concat(a, b);
    lemma_boundary_char(a + b, a.len() as int);
    if b.len() > 0 {
        assert(valid_first_scalar(b));
        assert(!is_continuation_byte(b[0]));
        assert((a + b)[a.len() as int] == b[0]);
    }
}

/// Replace the byte range `[from, to)` of `line` with the bytes of `ins`.
/// This is the single primitive behind character insertion and deletion.
pub fn splice_bytes(line: &Vec<u8>, from: usize, to: usize, ins: &Vec<u8>) -> (r: Vec<u8>)
    requires
        from <= to <= line.len(),
        line.len() - (to - from) + ins.len() <= usize::MAX,
    ensures
        r@ == splice(line@, from as int, to as int, ins@),
{
    let mut r: Vec<u8> = Vec::new();
    let mut i: usize = 0;
    while i < from
        invariant
            i <= from <= to <= line.len(),
            r@ =~= line@.subrange(0, i as int),
        decreases from - i,
    {
        r.push(line[i]);
        i += 1;
    }
    let mut j: usize = 0;
    while j < ins.len()
        invariant
            from <= to <= line.len(),
            j <= ins.len(),
            r@ =~= line@.subrange(0, from as int) + ins@.subrange(0, j as int),
        decreases ins.len() - j,
    {
        r.push(ins[j]);
        j += 1;
    }
    let mut k: usize = to;
    while k < line.len()
        invariant
            from <= to <= k <= line.len(),
            r@ =~= line@.subrange(0, from as int) + ins@ + line@.subrange(to as int, k as int),
        decreases line.len() - k,
    {
        r.push(line[k]);
        k += 1;
    }
    proof {
        assert(r@ =~= splice(line@, from as int, to as int, ins@));
    }
    r
}

/// True for the six ASCII whitespace bytes. Matching arms of the wrap
/// algorithm skip these after a soft break.
pub open spec fn spec_is_ascii_ws(b: u8) -> bool {
    b == 0x20 || b == 0x09 || b == 0x0A || b == 0x0B || b == 0x0C || b == 0x0D
}

#[verifier::when_used_as_spec(spec_is_ascii_ws)]
pub fn is_ascii_ws(b: u8) -> (r: bool)
    ensures
        r == spec_is_ascii_ws(b),
{
    b == 0x20 || b == 0x09 || b == 0x0A || b == 0x0B || b == 0x0C || b == 0x0D
}

/// The UTF-8 encoding of a single character, built to match `encode_scalar`
/// bit for bit.
pub fn encode_char(c: char) -> (r: Vec<u8>)
    ensures
        r@ == encode_scalar(c as u32),
        r@ == encode_utf8(seq![c]),
        valid_utf8(r@),
        1 <= r@.len() <= 4,
{
    proof {
        char_is_scalar(c);
    }
    let u = c as u32;
    let mut r: Vec<u8> = Vec::new();
    if u <= 0x7F {
        r.push((u & 0x7F) as u8);
    } else if u <= 0x7FF {
        r.push(0xC0u8 | ((u >> 6) & 0x1F) as u8);
        r.push(0x80u8 | (u & 0x3F) as u8);
    } else if u <= 0xFFFF {
        r.push(0xE0u8 | ((u >> 12) & 0x0F) as u8);
        r.push(0x80u8 | ((u >> 6) & 0x3F) as u8);
        r.push(0x80u8 | (u & 0x3F) as u8);
    } else {
        r.push(0xF0u8 | ((u >> 18) & 0x7) as u8);
        r.push(0x80u8 | ((u >> 12) & 0x3F) as u8);
        r.push(0x80u8 | ((u >> 6) & 0x3F) as u8);
        r.push(0x80u8 | (u & 0x3F) as u8);
    }
    proof {
        assert(r@ =~= encode_scalar(u));
        assert(seq![c].len() == 1 && seq![c][0] == c);
        assert(seq![c].drop_first() =~= Seq::<char>::empty());
        assert(encode_utf8(Seq::<char>::empty()) =~= Seq::<u8>::empty());
        assert(encode_utf8(seq![c]) == encode_scalar(seq![c][0] as u32) + encode_utf8(
            seq![c].drop_first(),
        ));
        assert(encode_utf8(seq![c]) =~= encode_scalar(c as u32));
        encode_utf8_valid_utf8(seq![c]);
    }
    r
}

/// Byte length of the character that starts at boundary `i`, read off the
/// leading byte. The offsets strictly between `i` and `i + n` are the
/// continuation bytes of that character, never boundaries.
pub fn char_len_at(line: &Vec<u8>, i: usize) -> (n: usize)
    requires
        valid_utf8(line@),
        is_char_boundary(line@, i as int),
        i < line.len(),
    ensures
        1 <= n <= 4,
        i + n <= line.len(),
        is_char_boundary(line@, i + n),
        n == length_of_first_scalar(line@.subrange(i as int, line@.len() as int)),
        forall|k: int| i < k < i + n ==> !is_char_boundary(line@, k),
{
    proof {
        lemma_suffix_first_scalar(line@, i as int);
    }
    let ghost suffix = line@.subrange(i as int, line@.len() as int);
    let b = line[i];
    let n: usize = if b < 0x80 {
        1
    } else if b < 0xE0 {
        2
    } else if b < 0xF0 {
        3
    } else {
        4
    };
    proof {
        assert(suffix[0] == b);
        assert(n == length_of_first_scalar(suffix));
        lemma_step_boundary(line@, i as int, n as int);
    }
    n
}

/// A character boundary splits off a valid, non-empty suffix whose leading
/// scalar is well formed.
pub proof fn lemma_suffix_first_scalar(s: Seq<u8>, i: int)
    requires
        valid_utf8(s),
        is_char_boundary(s, i),
        0 <= i < s.len(),
    ensures
        valid_utf8(s.subrange(i, s.len() as int)),
        valid_first_scalar(s.subrange(i, s.len() as int)),
{
    valid_utf8_split(s, i);
    let suffix = s.subrange(i, s.len() as int);
    assert(suffix.len() > 0);
    assert(valid_first_scalar(suffix));
}

/// Stepping one whole scalar forward from a boundary lands on the next
/// boundary, with only continuation bytes in between.
pub proof fn lemma_step_boundary(s: Seq<u8>, i: int, n: int)
    requires
        valid_utf8(s),
        is_char_boundary(s, i),
        0 <= i < s.len(),
        n == length_of_first_scalar(s.subrange(i, s.len() as int)),
    ensures
        i + n <= s.len(),
        is_char_boundary(s, i + n),
        forall|k: int| i < k < i + n ==> !is_char_boundary(s, k),
{
    lemma_suffix_first_scalar(s, i);
    let suffix = s.subrange(i, s.len() as int);
    assert(suffix.len() >= n);
    assert forall|k: int| i < k < i + n implies !is_char_boundary(s, k) by {
        assert(is_continuation_byte(suffix[k - i]));
        assert(s[k] == suffix[k - i]);
        lemma_boundary_char(s, k);
    }
    lemma_boundary_char(s, i + n);
    if i + n < s.len() {
        let rest = pop_first_scalar(suffix);
        assert(rest =~= s.subrange(i + n, s.len() as int));
        assert(valid_utf8(rest));
        assert(rest.len() > 0);
        assert(valid_first_scalar(rest));
        assert(!is_continuation_byte(rest[0]));
        assert(s[i + n] == rest[0]);
    }
}

/// Start offset of the character that ends at boundary `i`: the nearest
/// boundary strictly before `i`.
pub fn prev_char_start(line: &Vec<u8>, i: usize) -> (j: usize)
    requires
        valid_utf8(line@),
        is_char_boundary(line@, i as int),
        0 < i <= line.len(),
    ensures
        j < i,
        is_char_boundary(line@, j as int),
        forall|k: int| j < k < i ==> !is_char_boundary(line@, k),
{
    let mut j: usize = i - 1;
    proof {
        lemma_boundary_char(line@, 0);
    }
    while 0x80 <= line[j] && line[j] <= 0xBF
        invariant
            valid_utf8(line@),
            0 < i <= line.len(),
            j < i,
            forall|k: int| j < k < i ==> is_continuation_byte(line@[k]),
            !is_continuation_byte(line@[0]),
        decreases j,
    {
        proof {
            assert(is_continuation_byte(line@[j as int]));
            assert(j != 0);
        }
        j = j - 1;
    }
    proof {
        lemma_boundary_char(line@, j as int);
        assert forall|k: int| j < k < i implies !is_char_boundary(line@, k) by {
            lemma_boundary_char(line@, k);
        }
    }
    j
}

/// The character that starts at boundary `i`, decoded from its leading and
/// continuation bytes to match `decode_first_scalar` bit for bit.
pub fn char_at(line: &Vec<u8>, i: usize) -> (c: char)
    requires
        valid_utf8(line@),
        is_char_boundary(line@, i as int),
        i < line.len(),
    ensures
        c as u32 == decode_first_scalar(line@.subrange(i as int, line@.len() as int)),
        c == decode_first_scalar(line@.subrange(i as int, line@.len() as int)) as char,
{
    let ghost suffix = line@.subrange(i as int, line@.len() as int);
    let n = char_len_at(line, i);
    proof {
        lemma_suffix_first_scalar(line@, i as int);
        assert(line@[i as int] == suffix[0]);
    }
    let u: u32 = if n == 1 {
        (line[i] & 0x7F) as u32
    } else if n == 2 {
        proof {
            assert(suffix[1] == line@[i + 1]);
        }
        (((line[i] & 0x1F) as u32) << 6u32) | ((line[i + 1] & 0x3F) as u32)
    } else if n == 3 {
        proof {
            assert(suffix[1] == line@[i + 1] && suffix[2] == line@[i + 2]);
        }
        (((line[i] & 0x0F) as u32) << 12u32) | ((((line[i + 1] & 0x3F) as u32) << 6u32) | ((line[i
            + 2] & 0x3F) as u32))
    } else {
        proof {
            assert(suffix[1] == line@[i + 1] && suffix[2] == line@[i + 2] && suffix[3] == line@[i
                + 3]);
        }
        (((line[i] & 0x07) as u32) << 18u32) | ((((line[i + 1] & 0x3F) as u32) << 12u32) | ((((line[i
            + 2] & 0x3F) as u32) << 6u32) | ((line[i + 3] & 0x3F) as u32)))
    };
    proof {
        lemma_decoded_scalar(suffix, u);
    }
    let c = match crate::trusted::char_from_u32(u) {
        Some(c) => c,
        None => ' ',  // unreachable: u is a Unicode scalar value
    };
    proof {
        char_u32_cast(c, u);
    }
    c
}

/// The value assembled from the data bits of a well-formed leading scalar is
/// that scalar, and it lies in the Unicode scalar range.
proof fn lemma_decoded_scalar(suffix: Seq<u8>, u: u32)
    requires
        valid_utf8(suffix),
        suffix.len() > 0,
        ({
            let n = length_of_first_scalar(suffix);
            if n == 1 {
                u == (suffix[0] & 0x7F) as u32
            } else if n == 2 {
                u == (((suffix[0] & 0x1F) as u32) << 6u32) | ((suffix[1] & 0x3F) as u32)
            } else if n == 3 {
                u == (((suffix[0] & 0x0F) as u32) << 12u32) | ((((suffix[1] & 0x3F) as u32)
                    << 6u32) | ((suffix[2] & 0x3F) as u32))
            } else {
                u == (((suffix[0] & 0x07) as u32) << 18u32) | ((((suffix[1] & 0x3F) as u32)
                    << 12u32) | ((((suffix[2] & 0x3F) as u32) << 6u32) | ((suffix[3]
                    & 0x3F) as u32)))
            }
        }),
    ensures
        u == decode_first_scalar(suffix),
        is_scalar(u),
{
    assert(valid_first_scalar(suffix));
    let b0 = suffix[0];
    let n = length_of_first_scalar(suffix);
    if n == 1 {
        assert(u == codepoint_width_1(b0));
        assert(u <= 0x7F) by (bit_vector)
            requires
                u == (b0 & 0x7F) as u32,
        ;
    } else if n == 2 {
        let b1 = suffix[1];
        assert(u == codepoint_width_2(b0, b1));
        assert(u <= 0x7FF) by (bit_vector)
            requires
                u == (((b0 & 0x1F) as u32) << 6u32) | ((b1 & 0x3F) as u32),
        ;
    } else if n == 3 {
        let b1 = suffix[1];
        let b2 = suffix[2];
        assert(u == ((((b0 & 0x0F) as u32) << 12u32) | (((b1 & 0x3F) as u32) << 6u32)) | ((b2
            & 0x3F) as u32)) by (bit_vector)
            requires
                u == (((b0 & 0x0F) as u32) << 12u32) | ((((b1 & 0x3F) as u32) << 6u32) | ((b2
                    & 0x3F) as u32)),
        ;
        assert(u == codepoint_width_3(b0, b1, b2));
        assert(u <= 0xFFFF) by (bit_vector)
            requires
                u == (((b0 & 0x0F) as u32) << 12u32) | ((((b1 & 0x3F) as u32) << 6u32) | ((b2
                    & 0x3F) as u32)),
        ;
    } else {
        let b1 = suffix[1];
        let b2 = suffix[2];
        let b3 = suffix[3];
        assert(u == (((((b0 & 0x07) as u32) << 18u32) | (((b1 & 0x3F) as u32) << 12u32)) | (((b2
            & 0x3F) as u32) << 6u32)) | ((b3 & 0x3F) as u32)) by (bit_vector)
            requires
                u == (((b0 & 0x07) as u32) << 18u32) | ((((b1 & 0x3F) as u32) << 12u32) | ((((b2
                    & 0x3F) as u32) << 6u32) | ((b3 & 0x3F) as u32))),
        ;
        assert(u == codepoint_width_4(b0, b1, b2, b3));
    }
}

/// Extract the byte range `[from, to)` of a row as a fresh vector.
pub fn sub_bytes(line: &Vec<u8>, from: usize, to: usize) -> (r: Vec<u8>)
    requires
        from <= to <= line.len(),
    ensures
        r@ == line@.subrange(from as int, to as int),
{
    let mut r: Vec<u8> = Vec::new();
    let mut i: usize = from;
    while i < to
        invariant
            from <= i <= to <= line.len(),
            r@ =~= line@.subrange(from as int, i as int),
        decreases to - i,
    {
        r.push(line[i]);
        i += 1;
    }
    proof {
        assert(r@ =~= line@.subrange(from as int, to as int));
    }
    r
}

/// The concatenation of two rows, as when a backspace or delete merges
/// adjacent lines.
pub fn concat_bytes(a: &Vec<u8>, b: &Vec<u8>) -> (r: Vec<u8>)
    ensures
        r@ == a@ + b@,
{
    let mut r = copy_bytes(a);
    let mut i: usize = 0;
    while i < b.len()
        invariant
            i <= b.len(),
            r@ =~= a@ + b@.subrange(0, i as int),
        decreases b.len() - i,
    {
        r.push(b[i]);
        i += 1;
    }
    proof {
        assert(r@ =~= a@ + b@);
    }
    r
}

/// Copy a row. Used when snapshotting document state for the undo history.
pub fn copy_bytes(line: &Vec<u8>) -> (r: Vec<u8>)
    ensures
        r@ == line@,
{
    let mut r: Vec<u8> = Vec::new();
    let mut i: usize = 0;
    while i < line.len()
        invariant
            i <= line.len(),
            r@ =~= line@.subrange(0, i as int),
        decreases line.len() - i,
    {
        r.push(line[i]);
        i += 1;
    }
    proof {
        assert(r@ =~= line@);
    }
    r
}

} // verus!
