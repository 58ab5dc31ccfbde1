use vstd::prelude::*;
use vstd::utf8::*;
use vstd::string::*;

verus! {

broadcast use encode_utf8_valid_utf8;

/// In valid UTF-8, an index holding an ASCII byte is a character boundary.
pub proof fn lemma_ascii_is_boundary(bytes: Seq<u8>, i: int)
    requires
        valid_utf8(bytes),
        0 <= i < bytes.len(),
        bytes[i] < 0x80,
    ensures
        is_char_boundary(bytes, i),
{
    is_char_boundary_iff_not_is_continuation_byte(bytes, i);
}

/// In valid UTF-8, the index just after an ASCII byte is a character boundary.
pub proof fn lemma_boundary_after_ascii(bytes: Seq<u8>, i: int)
    requires
        valid_utf8(bytes),
        0 <= i < bytes.len(),
        bytes[i] < 0x80,
    ensures
        is_char_boundary(bytes, i + 1),
    decreases bytes.len(),
{
    let w = length_of_first_scalar(bytes);
    let rest = pop_first_scalar(bytes);
    assert(valid_utf8(rest));
    assert(1 <= w <= 4);
    if i == 0 {
        assert(w == 1);
        assert(is_char_boundary(rest, 0));
    } else if i < w {
        assert(is_continuation_byte(bytes[i]));
    } else {
        assert(rest.len() == bytes.len() - w);
        assert(rest[i - w] == bytes[i]);
        lemma_boundary_after_ascii(rest, i - w);
    }
}

/// The text between two character boundaries of `s`, as a new string.
pub fn substring(s: &str, start: usize, end: usize) -> (r: String)
    requires
        start <= end <= s.spec_bytes().len(),
        is_char_boundary(s.spec_bytes(), start as int),
        is_char_boundary(s.spec_bytes(), end as int),
    ensures
        encode_utf8(r@) == s.spec_bytes().subrange(start as int, end as int),
{
    let ghost bytes = s.spec_bytes();
    assert(valid_utf8(bytes));
    let (head, _tail) = s.split_at(end);
    proof {
        let hb = head.spec_bytes();
        assert(valid_utf8(hb));
        assert(hb =~= bytes.subrange(0, end as int));
        if start == end {
            is_char_boundary_start_end_of_seq(hb);
        } else {
            is_char_boundary_iff_not_is_continuation_byte(bytes, start as int);
            is_char_boundary_iff_not_is_continuation_byte(hb, start as int);
        }
    }
    let (_front, mid) = head.split_at(start);
    assert(mid.spec_bytes() =~= bytes.subrange(start as int, end as int));
    mid.to_owned()
}

/// A printer gives one text for each value: two texts it may give for the
/// same value are the same.
pub open spec fn text_is_function<A, F: Fn(&A) -> String>(f: F) -> bool {
    forall|a: A, s1: String, s2: String|
        #[trigger] call_ensures(f, (&a,), s1) && #[trigger] call_ensures(f, (&a,), s2) ==> s1@ == s2@
}

/// The text a printer gives for `a`.
pub open spec fn text_of<A, F: Fn(&A) -> String>(f: F, a: A) -> Seq<char> {
    (choose|s: String| call_ensures(f, (&a,), s))@
}

/// The text a printer that gives one text per value gave is its text.
pub proof fn lemma_text_of<A, F: Fn(&A) -> String>(f: F, a: A, s: String)
    requires
        text_is_function::<A, F>(f),
        call_ensures(f, (&a,), s),
    ensures
        text_of(f, a) == s@,
{
    let w = choose|w: String| call_ensures(f, (&a,), w);
    assert(call_ensures(f, (&a,), w));
}

/// The text of a single character.
///
/// Trusted: std's `ToString::to_string` on a `char` gives the string that
/// `char`'s `Display` writes, which is the character itself.
#[verifier::external_body]
pub(crate) fn char_text(c: char) -> (s: String)
    ensures
        s@ == seq![c],
{
    c.to_string()
}

} // verus!
