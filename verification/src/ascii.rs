//! ASCII case folding of scale identifiers.
use vstd::prelude::*;
use vstd::utf8::is_ascii_chars;

verus! {

broadcast use vstd::string::group_string_axioms;

/// The code of a character after ASCII lowercasing: `'A'..='Z'` map to
/// `'a'..='z'`, every other character is unchanged.
pub open spec fn lower_code(c: char) -> int {
    if 'A' <= c && c <= 'Z' {
        c as int + 32
    } else {
        c as int
    }
}

/// `s`, lowercased in ASCII, is exactly `id`.
pub open spec fn folds_to(s: Seq<char>, id: Seq<char>) -> bool {
    &&& s.len() == id.len()
    &&& forall|k: int| 0 <= k < s.len() ==> lower_code(#[trigger] s[k]) == id[k] as int
}

/// `s` holds ASCII characters only, none of them an upper-case letter.
pub open spec fn is_lower_ascii(s: Seq<char>) -> bool {
    forall|k: int| 0 <= k < s.len() ==> '\0' <= #[trigger] s[k] <= '\u{7f}' && !('A' <= s[k] && s[k] <= 'Z')
}

/// Lowercasing the byte of an ASCII character.
fn lower_byte(b: u8) -> (r: u8)
    ensures
        r as int == if 65 <= b <= 90 { b as int + 32 } else { b as int },
{
    if 65 <= b && b <= 90 {
        b + 32
    } else {
        b
    }
}

/// Whether `s`, lowercased in ASCII, equals the ASCII identifier `id`.
pub fn folds_to_exec(s: &str, id: &str) -> (r: bool)
    requires
        is_ascii_chars(id@),
    ensures
        r == folds_to(s@, id@),
{
    if !s.is_ascii() {
        proof {
            if s@.len() == id@.len() {
                let k = choose|k: int| 0 <= k < s@.len() && !('\0' <= #[trigger] s@[k] <= '\u{7f}');
                assert(lower_code(s@[k]) != id@[k] as int);
            }
        }
        return false;
    }
    let sb = s.as_bytes();
    let ib = id.as_bytes();
    proof {
        vstd::utf8::is_ascii_chars_encode_utf8(s@);
        vstd::utf8::is_ascii_chars_encode_utf8(id@);
    }
    if sb.len() != ib.len() {
        return false;
    }
    let n = sb.len();
    let mut k: usize = 0;
    while k < n
        invariant
            n == sb@.len(),
            n == ib@.len(),
            n == s@.len(),
            n == id@.len(),
            k <= n,
            is_ascii_chars(s@),
            is_ascii_chars(id@),
            forall|j: int| 0 <= j < n ==> #[trigger] sb@[j] == s@[j] as u8,
            forall|j: int| 0 <= j < n ==> #[trigger] ib@[j] == id@[j] as u8,
            forall|j: int| 0 <= j < k ==> lower_code(#[trigger] s@[j]) == id@[j] as int,
        decreases n - k,
    {
        let c = lower_byte(sb[k]);
        let ghost sc = s@[k as int];
        let ghost ic = id@[k as int];
        assert(sb@[k as int] as int == sc as int);
        assert(ib@[k as int] as int == ic as int);
        if c != ib[k] {
            return false;
        }
        k += 1;
    }
    true
}

} // verus!
