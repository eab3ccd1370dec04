//! Text helpers: building strings character by character, rendering
//! numbers in decimal for topic names, and splitting dotted context
//! paths.

use vstd::prelude::*;
use vstd::string::{StringExecFns, StrSliceExecFns};

verus! {

/// Relies on String::push: it appends the given character at the end.
#[verifier::external_body]
pub fn push_char(s: &mut String, c: char)
    ensures
        final(s)@ == old(s)@ + seq![c],
{
    s.push(c);
}

/// A code point that a character can carry: not a surrogate, not past
/// the last plane.
pub open spec fn unicode_scalar(v: u32) -> bool {
    v < 0xD800 || (0xDFFF < v && v <= 0x10FFFF)
}

/// Relies on char::from_u32: it answers the character with the given
/// code point, and nothing exactly when the value is a surrogate or
/// lies past the last plane.
#[verifier::external_body]
pub fn char_from_u32(v: u32) -> (r: Option<char>)
    ensures
        r is Some <==> unicode_scalar(v),
        r is Some ==> r->Some_0 as u32 == v,
{
    char::from_u32(v)
}

/// The decimal digit character for `d`.
pub open spec fn digit_char(d: nat) -> char {
    ((48 + (d % 10)) as u8) as char
}

/// The decimal text of `n`, most significant digit first.
pub open spec fn dec_digits(n: nat) -> Seq<char>
    decreases n,
{
    if n < 10 {
        seq![digit_char(n)]
    } else {
        dec_digits(n / 10).push(digit_char(n % 10))
    }
}

/// Render `n` in decimal.
pub fn u64_to_dec(n: u64) -> (r: String)
    ensures
        r@ == dec_digits(n as nat),
    decreases n,
{
    if n < 10 {
        let mut s = String::new();
        push_char(&mut s, (48 + (n as u8)) as char);
        proof {
            assert(s@ =~= dec_digits(n as nat));
        }
        s
    } else {
        let mut s = u64_to_dec(n / 10);
        push_char(&mut s, (48 + ((n % 10) as u8)) as char);
        proof {
            assert(s@ =~= dec_digits(n as nat));
        }
        s
    }
}

/// The index of the first dot in `p`, or its length where none occurs.
pub open spec fn first_dot(p: Seq<char>) -> int
    decreases p.len(),
{
    if p.len() == 0 {
        0
    } else if p[0] == '.' {
        0
    } else {
        1 + first_dot(p.drop_first())
    }
}

/// Where the first dot stands: no dot before it, a dot at it unless the
/// text has none.
pub proof fn lemma_first_dot(p: Seq<char>)
    ensures
        0 <= first_dot(p) <= p.len(),
        forall|j: int| 0 <= j < first_dot(p) ==> p[j] != '.',
        first_dot(p) < p.len() ==> p[first_dot(p)] == '.',
    decreases p.len(),
{
    if p.len() > 0 && p[0] != '.' {
        lemma_first_dot(p.drop_first());
        assert forall|j: int| 0 <= j < first_dot(p) implies p[j] != '.' by {
            if j > 0 {
                assert(p.drop_first()[j - 1] == p[j]);
            }
        }
        if first_dot(p) < p.len() {
            assert(p.drop_first()[first_dot(p) - 1] == p[first_dot(p)]);
        }
    }
}

/// The segments of a dotted path, in order. A text without dots is one
/// segment; each dot ends a segment.
pub open spec fn split_path(p: Seq<char>) -> Seq<Seq<char>>
    decreases p.len(),
{
    let d = first_dot(p);
    if !(0 <= d < p.len()) {
        seq![p]
    } else {
        seq![p.subrange(0, d)] + split_path(p.subrange(d + 1, p.len() as int))
    }
}

/// Find the first dot of `s`, as `first_dot` names it.
#[verifier::loop_isolation(false)]
fn find_dot(s: &str) -> (r: usize)
    ensures
        r as int == first_dot(s@),
{
    proof {
        lemma_first_dot(s@);
    }
    let n = s.unicode_len();
    let mut i: usize = 0;
    while i < n
        invariant
            i <= n,
            n == s@.len(),
            forall|j: int| 0 <= j < i ==> s@[j] != '.',
        decreases n - i,
    {
        if s.get_char(i) == '.' {
            proof {
                lemma_first_dot_at(s@, i as int);
            }
            return i;
        }
        i += 1;
    }
    proof {
        lemma_first_dot_none(s@);
    }
    n
}

/// A dot at `i` with none before it is the first dot.
proof fn lemma_first_dot_at(p: Seq<char>, i: int)
    requires
        0 <= i < p.len(),
        p[i] == '.',
        forall|j: int| 0 <= j < i ==> p[j] != '.',
    ensures
        first_dot(p) == i,
    decreases i,
{
    if i > 0 {
        assert forall|j: int| 0 <= j < i - 1 implies p.drop_first()[j] != '.' by {
            assert(p.drop_first()[j] == p[j + 1]);
        }
        assert(p.drop_first()[i - 1] == p[i]);
        lemma_first_dot_at(p.drop_first(), i - 1);
    }
}

/// No dot anywhere puts the first dot at the length.
proof fn lemma_first_dot_none(p: Seq<char>)
    requires
        forall|j: int| 0 <= j < p.len() ==> p[j] != '.',
    ensures
        first_dot(p) == p.len(),
    decreases p.len(),
{
    if p.len() > 0 {
        assert forall|j: int| 0 <= j < p.drop_first().len() implies p.drop_first()[j] != '.' by {
            assert(p.drop_first()[j] == p[j + 1]);
        }
        lemma_first_dot_none(p.drop_first());
    }
}

/// Split a dotted path into its segments.
pub fn split_path_text(p: &str) -> (r: Vec<String>)
    ensures
        r.deep_view() == split_path(p@),
    decreases p@.len(),
{
    let d = find_dot(p);
    let n = p.unicode_len();
    if d >= n {
        let mut out: Vec<String> = Vec::new();
        out.push(String::from_str(p));
        proof {
            assert(out.deep_view() =~= split_path(p@));
        }
        out
    } else {
        let head = p.substring_char(0, d);
        let rest = p.substring_char(d + 1, n);
        proof {
            assert(rest@.len() < p@.len());
        }
        let mut out = split_path_text(rest);
        let mut whole: Vec<String> = Vec::new();
        whole.push(String::from_str(head));
        let mut i: usize = 0;
        while i < out.len()
            invariant
                i <= out@.len(),
                whole@.len() == i + 1,
                whole@[0]@ == head@,
                forall|j: int| 1 <= j <= i ==> #[trigger] whole@[j]@ == out@[j - 1]@,
            decreases out@.len() - i,
        {
            let s = String::from_str(out[i].as_str());
            whole.push(s);
            i += 1;
        }
        proof {
            lemma_first_dot(p@);
            assert(head@ == p@.subrange(0, d as int));
            assert(rest@ == p@.subrange(d as int + 1, p@.len() as int));
            assert(split_path(p@) == seq![p@.subrange(0, d as int)] + split_path(rest@));
            assert(whole.deep_view().len() == split_path(p@).len());
            assert forall|j: int| 0 <= j < whole.deep_view().len() implies whole.deep_view()[j]
                == split_path(p@)[j] by {
                if j == 0 {
                    assert(whole.deep_view()[0] == head@);
                } else {
                    assert(whole@[j]@ == out@[j - 1]@);
                    assert(out.deep_view()[j - 1] == split_path(rest@)[j - 1]);
                }
            }
            assert(whole.deep_view() =~= split_path(p@));
        }
        whole
    }
}

} // verus!
