//! Record names: UTF-8 text whose backslashes separate path components.
use vstd::prelude::*;
use vstd::utf8::*;

verus! {

/// The byte that separates the components of a stored name.
pub const SEPARATOR: u8 = 0x5C;

/// The pieces of `b` between separators, in order; `b` without any separator
/// is one piece, so the result is never empty.
pub open spec fn split_name(b: Seq<u8>) -> Seq<Seq<u8>>
    decreases b.len(),
{
    if b.len() == 0 {
        seq![Seq::empty()]
    } else {
        let init = split_name(b.drop_last());
        if b.last() == SEPARATOR {
            init.push(Seq::empty())
        } else {
            init.update(init.len() - 1, init.last().push(b.last()))
        }
    }
}

/// The pieces of `pieces` that are not empty, in order.
pub open spec fn nonempty_pieces(pieces: Seq<Seq<u8>>) -> Seq<Seq<u8>>
    decreases pieces.len(),
{
    if pieces.len() == 0 {
        Seq::empty()
    } else {
        let init = nonempty_pieces(pieces.drop_last());
        if pieces.last().len() == 0 {
            init
        } else {
            init.push(pieces.last())
        }
    }
}

/// The components of the path stored as `name`, or `None` when `name` is
/// not UTF-8. Empty pieces (an empty name, or a leading, trailing or doubled
/// backslash) add no component, so an empty name is the empty path.
pub open spec fn decode_path(name: Seq<u8>) -> Option<Seq<Seq<char>>> {
    if valid_utf8(name) {
        Some(nonempty_pieces(split_name(name)).map_values(|s: Seq<u8>| decode_utf8(s)))
    } else {
        None
    }
}

/// Cutting valid UTF-8 at an ASCII byte leaves valid UTF-8 on both sides.
proof fn lemma_valid_around_ascii(a: Seq<u8>, c: u8, b: Seq<u8>)
    requires
        c <= 0x7f,
        valid_utf8(a + seq![c] + b),
    ensures
        valid_utf8(a),
        valid_utf8(b),
    decreases a.len(),
{
    let w = a + seq![c] + b;
    if a.len() == 0 {
        assert(w.subrange(1, w.len() as int) =~= b);
    } else {
        let k = length_of_first_scalar(w);
        assert(w[a.len() as int] == c);
        assert(forall|j: int| 0 <= j < a.len() ==> a[j] == w[j]);
        assert(k <= a.len());
        assert(valid_first_scalar(a));
        assert(length_of_first_scalar(a) == k);
        let rest = pop_first_scalar(a);
        assert(pop_first_scalar(w) =~= rest + seq![c] + b);
        lemma_valid_around_ascii(rest, c, b);
    }
}

/// The first scalar of valid UTF-8 is a character value, equal to the
/// leading byte when that byte is ASCII and above ASCII otherwise.
pub(crate) proof fn lemma_first_scalar_range(s: Seq<u8>)
    requires
        valid_first_scalar(s),
    ensures
        decode_first_scalar(s) <= 0x10FFFF,
        !(0xD800 <= decode_first_scalar(s) <= 0xDFFF),
        is_leading_byte_width_1(s[0]) ==> decode_first_scalar(s) == s[0],
        !is_leading_byte_width_1(s[0]) ==> decode_first_scalar(s) >= 0x80,
{
    let b0 = s[0];
    if is_leading_byte_width_1(b0) {
        assert(b0 & 0x7F == b0) by (bit_vector)
            requires
                b0 <= 0x7f,
        ;
    } else if is_leading_byte_width_2(b0) {
        let b1 = s[1];
        assert(((((b0 & 0x1F) as u32) << 6) | ((b1 & 0x3f) as u32)) <= 0xFFFF) by (bit_vector);
    } else if is_leading_byte_width_3(b0) {
        let b1 = s[1];
        let b2 = s[2];
        assert(((((b0 & 0x0F) as u32) << 12) | (((b1 & 0x3f) as u32) << 6) | ((b2 & 0x3f) as u32))
            <= 0xFFFF) by (bit_vector);
    }
}

/// A piece of valid UTF-8 without the separator byte decodes to text
/// without a backslash.
proof fn lemma_decoded_has_no_backslash(s: Seq<u8>)
    requires
        valid_utf8(s),
        !s.contains(SEPARATOR),
    ensures
        !decode_utf8(s).contains('\\'),
    decreases s.len(),
{
    if s.len() > 0 {
        let rest = pop_first_scalar(s);
        let v = decode_first_scalar(s);
        lemma_first_scalar_range(s);
        assert(s[0] != SEPARATOR);
        assert(v != 0x5C);
        assert((v as char) != '\\');
        assert(!rest.contains(SEPARATOR)) by {
            if rest.contains(SEPARATOR) {
                let j = choose|j: int| 0 <= j < rest.len() && rest[j] == SEPARATOR;
                assert(s[j + length_of_first_scalar(s)] == SEPARATOR);
            }
        }
        lemma_decoded_has_no_backslash(rest);
        assert(decode_utf8(s) =~= seq![v as char] + decode_utf8(rest));
    }
}

/// The UTF-8 bytes `b` of a component that stays under the directory it is
/// joined to: it is not empty, holds no `/`, and is neither `.` nor `..`.
pub open spec fn confined_component(b: Seq<u8>) -> bool {
    &&& b.len() > 0
    &&& !b.contains(0x2F)
    &&& b != seq![0x2Eu8]
    &&& b != seq![0x2Eu8, 0x2E]
}

/// Whether the component with UTF-8 bytes `b` stays under its directory.
pub fn is_confined_component(b: &[u8]) -> (r: bool)
    ensures
        r == confined_component(b@),
{
    let n = b.len();
    if n == 0 || (n == 1 && b[0] == 0x2E) || (n == 2 && b[0] == 0x2E && b[1] == 0x2E) {
        assert(n == 1 ==> b@ =~= seq![b@[0]]);
        assert(n == 2 ==> b@ =~= seq![b@[0], b@[1]]);
        return false;
    }
    assert(n == 1 ==> b@ != seq![0x2Eu8, 0x2E]);
    assert(b@ == seq![0x2Eu8] ==> b@[0] == 0x2E);
    assert(b@ == seq![0x2Eu8, 0x2E] ==> b@[0] == 0x2E && b@[1] == 0x2E);
    let mut i: usize = 0;
    while i < n
        invariant
            n == b@.len(),
            i <= n,
            forall|j: int| 0 <= j < i ==> b@[j] != 0x2F,
        decreases n - i,
    {
        if b[i] == 0x2F {
            assert(b@.contains(0x2F));
            return false;
        }
        i = i + 1;
    }
    true
}

/// Whether every component of `path` stays under the directory that the path
/// is joined to, so that a host path API cannot read it as a root, a parent
/// or a separator.
pub fn is_confined(path: &Vec<String>) -> (r: bool)
    ensures
        r == forall|k: int| 0 <= k < path@.len() ==> confined_component(encode_utf8(#[trigger] path@[k]@)),
{
    let mut k: usize = 0;
    while k < path.len()
        invariant
            k <= path@.len(),
            forall|j: int| 0 <= j < k ==> confined_component(encode_utf8(#[trigger] path@[j]@)),
        decreases path@.len() - k,
    {
        let bytes = path[k].as_str().as_bytes();
        if !is_confined_component(bytes) {
            return false;
        }
        k = k + 1;
    }
    true
}

/// Relies on `std::str::from_utf8`: it accepts exactly the valid UTF-8
/// sequences (no overlong forms, no surrogates, nothing above U+10FFFF) and
/// then yields the text that they encode.
#[verifier::external_body]
fn utf8_text(b: &[u8]) -> (r: Option<String>)
    ensures
        r is Some <==> valid_utf8(b@),
        r matches Some(s) ==> s@ == decode_utf8(b@),
{
    match std::str::from_utf8(b) {
        Ok(s) => Some(s.to_string()),
        Err(_) => None,
    }
}

/// The components of the path stored as `name`: the name must be UTF-8, each
/// backslash separates two components, so no component holds one, and no
/// component is empty.
pub fn decode_name(name: &[u8]) -> (r: Option<Vec<String>>)
    ensures
        match r {
            Some(v) => decode_path(name@) == Some(v.deep_view()),
            None => decode_path(name@) is None,
        },
        r matches Some(v) ==> forall|k: int| 0 <= k < v.len() ==> !(#[trigger] v@[k]@).contains('\\'),
        r matches Some(v) ==> forall|k: int| 0 <= k < v.len() ==> (#[trigger] v@[k]@).len() > 0,
{
    if utf8_text(name).is_none() {
        return None;
    }
    let len = name.len();
    let mut comps: Vec<String> = Vec::new();
    let ghost mut done: Seq<Seq<u8>> = Seq::empty();
    let ghost mut kept: Seq<Seq<u8>> = Seq::empty();
    let mut start: usize = 0;
    let mut i: usize = 0;
    assert(name@.subrange(0, 0) =~= Seq::<u8>::empty());
    while i < len
        invariant
            len == name@.len(),
            valid_utf8(name@),
            start <= i <= len,
            start == 0 || name@[start - 1] == SEPARATOR,
            forall|j: int| start <= j < i ==> name@[j] != SEPARATOR,
            kept == nonempty_pieces(done),
            comps@.len() == kept.len(),
            forall|k: int| 0 <= k < kept.len() ==> (#[trigger] comps@[k])@ == decode_utf8(kept[k]),
            forall|k: int| 0 <= k < comps@.len() ==> !(#[trigger] comps@[k])@.contains('\\'),
            forall|k: int| 0 <= k < comps@.len() ==> (#[trigger] comps@[k])@.len() > 0,
            split_name(name@.subrange(0, i as int)) == done.push(name@.subrange(start as int, i as int)),
        decreases len - i,
    {
        let ghost prefix = name@.subrange(0, i as int + 1);
        assert(prefix.drop_last() =~= name@.subrange(0, i as int));
        if name[i] == SEPARATOR {
            let ghost seg = name@.subrange(start as int, i as int);
            proof {
                lemma_segment_valid(name@, start as int, i as int);
                lemma_no_separator_segment(name@, start as int, i as int);
                lemma_decoded_has_no_backslash(seg);
            }
            if start < i {
                let text = match utf8_text(&name[start..i]) {
                    Some(t) => t,
                    None => {
                        return None;
                    },
                };
                comps.push(text);
                proof {
                    kept = kept.push(seg);
                }
            }
            proof {
                assert(done.push(seg).drop_last() =~= done);
                done = done.push(seg);
            }
            start = i + 1;
            assert(name@.subrange(start as int, i as int + 1) =~= Seq::<u8>::empty());
        } else {
            assert(name@.subrange(start as int, i as int + 1) =~= name@.subrange(
                start as int,
                i as int,
            ).push(name@[i as int]));
        }
        i = i + 1;
    }
    let ghost seg = name@.subrange(start as int, len as int);
    proof {
        lemma_segment_valid(name@, start as int, len as int);
        lemma_no_separator_segment(name@, start as int, len as int);
        lemma_decoded_has_no_backslash(seg);
    }
    if start < len {
        let text = match utf8_text(&name[start..len]) {
            Some(t) => t,
            None => {
                return None;
            },
        };
        comps.push(text);
        proof {
            kept = kept.push(seg);
        }
    }
    proof {
        assert(done.push(seg).drop_last() =~= done);
        done = done.push(seg);
        assert(name@.subrange(0, len as int) =~= name@);
        assert(comps.deep_view() =~= nonempty_pieces(split_name(name@)).map_values(
            |s: Seq<u8>| decode_utf8(s),
        ));
    }
    Some(comps)
}

/// A run of bytes of valid UTF-8 that starts at the beginning or after a
/// separator and ends at the end or before one is valid UTF-8 itself.
proof fn lemma_segment_valid(name: Seq<u8>, start: int, end: int)
    requires
        valid_utf8(name),
        0 <= start <= end <= name.len(),
        start == 0 || name[start - 1] == SEPARATOR,
        end == name.len() || name[end] == SEPARATOR,
    ensures
        valid_utf8(name.subrange(start, end)),
{
    let upto = name.subrange(0, end);
    if end < name.len() {
        assert(name =~= upto + seq![SEPARATOR] + name.subrange(end + 1, name.len() as int));
        lemma_valid_around_ascii(upto, SEPARATOR, name.subrange(end + 1, name.len() as int));
    } else {
        assert(upto =~= name);
    }
    if start > 0 {
        assert(upto =~= name.subrange(0, start - 1) + seq![SEPARATOR] + name.subrange(start, end));
        lemma_valid_around_ascii(name.subrange(0, start - 1), SEPARATOR, name.subrange(start, end));
    } else {
        assert(upto =~= name.subrange(start, end));
    }
}

proof fn lemma_no_separator_segment(name: Seq<u8>, start: int, end: int)
    requires
        0 <= start <= end <= name.len(),
        forall|j: int| start <= j < end ==> name[j] != SEPARATOR,
    ensures
        !name.subrange(start, end).contains(SEPARATOR),
{
    let seg = name.subrange(start, end);
    if seg.contains(SEPARATOR) {
        let j = choose|j: int| 0 <= j < seg.len() && seg[j] == SEPARATOR;
        assert(name[start + j] == SEPARATOR);
    }
}

} // verus!
