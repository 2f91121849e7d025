//! Comparing and building text.

use vstd::prelude::*;
use vstd::std_specs::iter::IteratorSpec;
use vstd::string::{StrSliceExecFns, StringExecFns, StringSliceAdditionalSpecFns};

verus! {

/// Whether two strings hold the same characters.
pub fn same_text(a: &str, b: &str) -> (same: bool)
    ensures
        same == (a@ == b@),
{
    let left = a.as_bytes();
    let right = b.as_bytes();
    proof {
        vstd::utf8::encode_utf8_decode_utf8(a@);
        vstd::utf8::encode_utf8_decode_utf8(b@);
    }
    if left.len() != right.len() {
        return false;
    }
    let mut i: usize = 0;
    while i < left.len()
        invariant
            i <= left.len(),
            left.len() == right.len(),
            left@ == a.spec_bytes(),
            right@ == b.spec_bytes(),
            forall|j: int| 0 <= j < i ==> left@[j] == right@[j],
        decreases left.len() - i,
    {
        if left[i] != right[i] {
            return false;
        }
        i += 1;
    }
    assert(left@ =~= right@);
    true
}

/// Whether `name` is what stands in `path` behind its last `/`, and all of
/// `path` if it holds none.
pub open spec fn is_file_name(path: Seq<char>, name: Seq<char>) -> bool {
    exists|k: int|
        0 <= k <= path.len() && #[trigger] path.subrange(k, path.len() as int) == name && (k == 0
            || path[k - 1] == '/') && forall|j: int| k <= j < path.len() ==> path[j] != '/'
}

/// What stands in `path` behind its last `/`.
pub fn after_last_slash(path: &str) -> (name: String)
    ensures
        is_file_name(path@, name@),
{
    let total = path.unicode_len();
    let mut chars = path.chars();
    let mut seen: usize = 0;
    let mut start: usize = 0;
    proof {
        broadcast use vstd::string::axiom_spec_iter;

        assert(path@.subrange(0, path@.len() as int) =~= path@);
    }
    loop
        invariant
            total == path@.len(),
            start <= seen <= total,
            chars.remaining() == path@.subrange(seen as int, total as int),
            start == 0 || path@[start - 1] == '/',
            forall|j: int| start <= j < seen ==> path@[j] != '/',
        ensures
            seen == total,
        decreases total - seen,
    {
        let ghost before = chars;
        let next = chars.next();
        proof {
            vstd::string::next_postcondition(&before, &chars, next);
        }
        match next {
            Some(c) => {
                assert(c == path@[seen as int]);
                assert(chars.remaining() =~= path@.subrange(seen + 1, total as int));
                seen += 1;
                if c == '/' {
                    start = seen;
                }
            },
            None => {
                break ;
            },
        }
    }
    String::from_str(path.substring_char(start, total))
}

/// The digit for `d` in a base up to sixteen.
pub open spec fn digit(d: nat) -> char {
    if d == 0 {
        '0'
    } else if d == 1 {
        '1'
    } else if d == 2 {
        '2'
    } else if d == 3 {
        '3'
    } else if d == 4 {
        '4'
    } else if d == 5 {
        '5'
    } else if d == 6 {
        '6'
    } else if d == 7 {
        '7'
    } else if d == 8 {
        '8'
    } else if d == 9 {
        '9'
    } else if d == 10 {
        'a'
    } else if d == 11 {
        'b'
    } else if d == 12 {
        'c'
    } else if d == 13 {
        'd'
    } else if d == 14 {
        'e'
    } else {
        'f'
    }
}

/// `n` in decimal digits, without leading zeros.
pub open spec fn decimal(n: nat) -> Seq<char>
    decreases n,
{
    if n < 10 {
        seq![digit(n)]
    } else {
        decimal(n / 10).push(digit(n % 10))
    }
}

/// `n` in hexadecimal digits, the letters in lower case, without leading
/// zeros.
pub open spec fn hexadecimal(n: nat) -> Seq<char>
    decreases n,
{
    if n < 16 {
        seq![digit(n)]
    } else {
        hexadecimal(n / 16).push(digit(n % 16))
    }
}

/// The digit for `d` as a string.
fn digit_text(d: u32) -> (text: &'static str)
    requires
        d < 16,
    ensures
        text@ == seq![digit(d as nat)],
{
    proof {
        reveal_strlit("0");
        reveal_strlit("1");
        reveal_strlit("2");
        reveal_strlit("3");
        reveal_strlit("4");
        reveal_strlit("5");
        reveal_strlit("6");
        reveal_strlit("7");
        reveal_strlit("8");
        reveal_strlit("9");
        reveal_strlit("a");
        reveal_strlit("b");
        reveal_strlit("c");
        reveal_strlit("d");
        reveal_strlit("e");
        reveal_strlit("f");
    }
    let text = if d == 0 {
        "0"
    } else if d == 1 {
        "1"
    } else if d == 2 {
        "2"
    } else if d == 3 {
        "3"
    } else if d == 4 {
        "4"
    } else if d == 5 {
        "5"
    } else if d == 6 {
        "6"
    } else if d == 7 {
        "7"
    } else if d == 8 {
        "8"
    } else if d == 9 {
        "9"
    } else if d == 10 {
        "a"
    } else if d == 11 {
        "b"
    } else if d == 12 {
        "c"
    } else if d == 13 {
        "d"
    } else if d == 14 {
        "e"
    } else {
        "f"
    };
    assert(text@ =~= seq![digit(d as nat)]);
    text
}

/// `n` in decimal digits.
pub fn decimal_text(n: u32) -> (text: String)
    ensures
        text@ == decimal(n as nat),
    decreases n,
{
    if n < 10 {
        String::from_str(digit_text(n))
    } else {
        let mut text = decimal_text(n / 10);
        text.append(digit_text(n % 10));
        assert(text@ =~= decimal(n as nat));
        text
    }
}

/// `n` in hexadecimal digits.
pub fn hexadecimal_text(n: u32) -> (text: String)
    ensures
        text@ == hexadecimal(n as nat),
    decreases n,
{
    if n < 16 {
        String::from_str(digit_text(n))
    } else {
        let mut text = hexadecimal_text(n / 16);
        text.append(digit_text(n % 16));
        assert(text@ =~= hexadecimal(n as nat));
        text
    }
}

/// Whether `a` stands at or before `b` in the order of the dictionary, byte
/// by byte.
pub open spec fn bytes_le(a: Seq<u8>, b: Seq<u8>) -> bool
    decreases a.len(),
{
    if a.len() == 0 {
        true
    } else if b.len() == 0 {
        false
    } else if a[0] != b[0] {
        a[0] < b[0]
    } else {
        bytes_le(a.drop_first(), b.drop_first())
    }
}

/// Whether `a` stands at or before `b` as strings are ordered: by the bytes
/// of their encoding.
pub open spec fn text_le(a: Seq<char>, b: Seq<char>) -> bool {
    bytes_le(vstd::utf8::encode_utf8(a), vstd::utf8::encode_utf8(b))
}

/// Of two byte strings one stands at or before the other.
pub proof fn lemma_bytes_le_total(a: Seq<u8>, b: Seq<u8>)
    ensures
        bytes_le(a, b) || bytes_le(b, a),
    decreases a.len(),
{
    if a.len() > 0 && b.len() > 0 && a[0] == b[0] {
        lemma_bytes_le_total(a.drop_first(), b.drop_first());
    }
}

/// The order of byte strings carries over.
pub proof fn lemma_bytes_le_transitive(a: Seq<u8>, b: Seq<u8>, c: Seq<u8>)
    requires
        bytes_le(a, b),
        bytes_le(b, c),
    ensures
        bytes_le(a, c),
    decreases a.len(),
{
    if a.len() > 0 && b.len() > 0 && c.len() > 0 && a[0] == b[0] && b[0] == c[0] {
        lemma_bytes_le_transitive(a.drop_first(), b.drop_first(), c.drop_first());
    }
}

/// Byte strings that stand at or before each other are the same.
pub proof fn lemma_bytes_le_antisymmetric(a: Seq<u8>, b: Seq<u8>)
    requires
        bytes_le(a, b),
        bytes_le(b, a),
    ensures
        a == b,
    decreases a.len(),
{
    if a.len() > 0 && b.len() > 0 {
        lemma_bytes_le_antisymmetric(a.drop_first(), b.drop_first());
        assert(a =~= seq![a[0]] + a.drop_first());
        assert(b =~= seq![b[0]] + b.drop_first());
    } else {
        assert(a =~= b);
    }
}

/// Strings that stand at or before each other are the same.
pub proof fn lemma_text_le_antisymmetric(a: Seq<char>, b: Seq<char>)
    requires
        text_le(a, b),
        text_le(b, a),
    ensures
        a == b,
{
    lemma_bytes_le_antisymmetric(vstd::utf8::encode_utf8(a), vstd::utf8::encode_utf8(b));
    vstd::utf8::encode_utf8_decode_utf8(a);
    vstd::utf8::encode_utf8_decode_utf8(b);
}

/// Whether `a` stands at or before `b` as strings are ordered.
pub fn text_at_or_before(a: &str, b: &str) -> (le: bool)
    ensures
        le == text_le(a@, b@),
{
    let left = a.as_bytes();
    let right = b.as_bytes();
    let mut i: usize = 0;
    proof {
        assert(left@.skip(0) =~= left@);
        assert(right@.skip(0) =~= right@);
    }
    loop
        invariant
            i <= left.len(),
            i <= right.len(),
            left@ == a.spec_bytes(),
            right@ == b.spec_bytes(),
            bytes_le(left@, right@) == bytes_le(left@.skip(i as int), right@.skip(i as int)),
        decreases left.len() - i,
    {
        if i == left.len() {
            return true;
        }
        if i == right.len() {
            return false;
        }
        proof {
            assert(left@.skip(i as int)[0] == left@[i as int]);
            assert(right@.skip(i as int)[0] == right@[i as int]);
            assert(left@.skip(i as int).drop_first() =~= left@.skip(i + 1));
            assert(right@.skip(i as int).drop_first() =~= right@.skip(i + 1));
        }
        if left[i] != right[i] {
            return left[i] < right[i];
        }
        i += 1;
    }
}

/// Whether `part` stands in `whole` right behind a dot.
pub open spec fn follows_a_dot(whole: Seq<char>, part: Seq<char>) -> bool {
    exists|k: int|
        0 < k && k + part.len() <= whole.len() && whole[k - 1] == '.' && #[trigger] whole.subrange(
            k,
            k + part.len(),
        ) == part
}

/// `std::path::Path::extension` of `path`. What counts as the file name of a
/// path depends on the platform, so the contract says only what holds on
/// each: the extension is a part of the path that follows a dot.
#[verifier::external_body]
pub(crate) fn path_extension(path: &str) -> (extension: Option<String>)
    ensures
        extension matches Some(found) ==> follows_a_dot(path@, found@),
{
    match std::path::Path::new(path).extension() {
        Some(extension) => match extension.to_str() {
            Some(text) => Some(text.to_owned()),
            None => None,
        },
        None => None,
    }
}

/// Whether `extension` is the extension of a stub file, `pyi`.
pub fn is_stub_extension(extension: &Option<String>) -> (stub: bool)
    ensures
        stub == (extension matches Some(found) && found@ == "pyi"@),
{
    match extension {
        Some(found) => same_text(found.as_str(), "pyi"),
        None => false,
    }
}

} // verus!
