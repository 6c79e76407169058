use vstd::prelude::*;
use vstd::string::{StrSliceExecFns, StringExecFns};

verus! {

/// Bytes of the UTF-8 encoding of `c`: one below U+0080, two below U+0800, three below
/// U+10000, four above.
pub open spec fn char_width(c: char) -> nat {
    if (c as u32) < 0x80 {
        1
    } else if (c as u32) < 0x800 {
        2
    } else if (c as u32) < 0x10000 {
        3
    } else {
        4
    }
}

/// Bytes of the UTF-8 encoding of `s`.
pub open spec fn byte_len(s: Seq<char>) -> nat
    decreases s.len(),
{
    if s.len() == 0 {
        0
    } else {
        byte_len(s.drop_last()) + char_width(s.last())
    }
}

/// Byte offset `k` of `s` falls between two characters (or at an end).
pub open spec fn on_boundary(s: Seq<char>, k: nat) -> bool {
    exists|j: int| 0 <= j <= s.len() && #[trigger] byte_len(s.take(j)) == k
}

/// The number of characters in the first `k` bytes of `s`, where `k` is on a boundary.
pub open spec fn chars_before(s: Seq<char>, k: nat) -> int {
    choose|j: int| 0 <= j <= s.len() && #[trigger] byte_len(s.take(j)) == k
}

/// The name after the operation with letter `c`: a bevel `b` first drops the operations it is
/// made of (its first two bytes), a dual `d` cancels a leading `d`, and any other letter goes
/// in front.
pub open spec fn renamed(name: Seq<char>, c: char) -> Seq<char> {
    let s = if c == 'b' { name.skip(chars_before(name, 2)) } else { name };
    if c == 'd' && s.len() > 0 && s[0] == 'd' {
        s.skip(1)
    } else {
        seq![c] + s
    }
}

proof fn lemma_byte_len_step(s: Seq<char>, i: int)
    requires
        0 <= i < s.len(),
    ensures
        byte_len(s.take(i + 1)) == byte_len(s.take(i)) + char_width(s[i]),
{
    assert(s.take(i + 1).drop_last() =~= s.take(i));
}

/// Longer prefixes take strictly more bytes.
pub proof fn lemma_byte_len_grows(s: Seq<char>, i: int, j: int)
    requires
        0 <= i < j <= s.len(),
    ensures
        byte_len(s.take(i)) < byte_len(s.take(j)),
    decreases j - i,
{
    lemma_byte_len_step(s, j - 1);
    if i < j - 1 {
        lemma_byte_len_grows(s, i, j - 1);
    }
}

/// Every letter other than `b` and `d` goes in front of the name as it stands.
pub proof fn law_rename_prepends(name: Seq<char>, c: char)
    requires
        c != 'b',
        c != 'd',
    ensures
        renamed(name, c) == seq![c] + name,
{
}

/// A bevel puts `b` in front of what follows the name's first two bytes.
pub proof fn law_bevel_drops_two_bytes(name: Seq<char>, j: int)
    requires
        0 <= j <= name.len(),
        byte_len(name.take(j)) == 2,
    ensures
        renamed(name, 'b') == seq!['b'] + name.skip(j),
{
    let k = chars_before(name, 2);
    assert(on_boundary(name, 2));
    if k < j {
        lemma_byte_len_grows(name, k, j);
    } else if j < k {
        lemma_byte_len_grows(name, j, k);
    }
}

/// A dual goes in front of a name that does not start with one, and a second dual takes it
/// away again.
pub proof fn law_dual_twice(name: Seq<char>)
    requires
        name.len() == 0 || name[0] != 'd',
    ensures
        renamed(name, 'd') == seq!['d'] + name,
        renamed(renamed(name, 'd'), 'd') == name,
{
    assert((seq!['d'] + name).skip(1) =~= name);
}

/// `char_width`, computed.
fn width(c: char) -> (r: usize)
    ensures
        r == char_width(c),
{
    let u = c as u32;
    if u < 0x80 {
        1
    } else if u < 0x800 {
        2
    } else if u < 0x10000 {
        3
    } else {
        4
    }
}

/// The number of characters in the first `k` bytes of `s`.
pub fn chars_in_bytes(s: &str, k: usize) -> (j: usize)
    requires
        on_boundary(s@, k as nat),
    ensures
        j == chars_before(s@, k as nat),
        j <= s@.len(),
        byte_len(s@.take(j as int)) == k,
{
    let ghost jj = chars_before(s@, k as nat);
    let n = s.unicode_len();
    let mut i: usize = 0;
    let mut acc: usize = 0;
    while acc < k
        invariant
            0 <= jj <= s@.len(),
            byte_len(s@.take(jj)) == k,
            n == s@.len(),
            i <= jj,
            acc == byte_len(s@.take(i as int)),
        decreases jj - i,
    {
        proof {
            lemma_byte_len_step(s@, i as int);
            if i + 1 < jj {
                lemma_byte_len_grows(s@, i + 1, jj);
            }
        }
        let w = width(s.get_char(i));
        acc = acc + w;
        i += 1;
    }
    proof {
        if i < jj {
            lemma_byte_len_grows(s@, i as int, jj);
        }
    }
    i
}

/// The string of the one character `c`, by `String::from`, which the standard library documents
/// as allocating a string holding that single character.
#[verifier::external_body]
pub(crate) fn letter(c: char) -> (r: String)
    ensures
        r@ == seq![c],
{
    String::from(c)
}

/// Renames a polyhedron after applying the operation with letter `c`.
pub fn rename(name: &String, c: char) -> (r: String)
    requires
        c != 'b' || on_boundary(name@, 2),
        c != 'd' || (name@.len() >= 1 && char_width(name@[0]) == 1),
    ensures
        r@ == renamed(name@, c),
{
    let whole = name.as_str();
    let n = whole.unicode_len();
    let s = if c == 'b' {
        let j = chars_in_bytes(whole, 2);
        whole.substring_char(j, n)
    } else {
        whole
    };
    let k = s.unicode_len();
    if c == 'd' && k > 0 && s.get_char(0) == 'd' {
        let rest = s.substring_char(1, k);
        let r = String::from_str(rest);
        assert(r@ =~= renamed(name@, c));
        r
    } else {
        let r = letter(c).concat(s);
        assert(r@ =~= renamed(name@, c));
        r
    }
}

} // verus!
