use vstd::prelude::*;
use vstd::string::*;

verus! {

/// Characters with the Unicode `White_Space` property.
pub open spec fn is_white_space(c: char) -> bool {
    let u = c as u32;
    (0x9 <= u && u <= 0xD) || u == 0x20 || u == 0x85 || u == 0xA0 || u == 0x1680 || (0x2000 <= u
        && u <= 0x200A) || u == 0x2028 || u == 0x2029 || u == 0x202F || u == 0x205F || u == 0x3000
}

/// Tests the Unicode `White_Space` property, as `char::is_whitespace` does.
pub fn is_space(c: char) -> (r: bool)
    ensures
        r == is_white_space(c),
{
    let u = c as u32;
    (0x9 <= u && u <= 0xD) || u == 0x20 || u == 0x85 || u == 0xA0 || u == 0x1680 || (0x2000 <= u
        && u <= 0x200A) || u == 0x2028 || u == 0x2029 || u == 0x202F || u == 0x205F || u == 0x3000
}

/// Relies on `String::push`: appends one character.
#[verifier::external_body]
pub(crate) fn push_char(s: &mut String, c: char)
    ensures
        final(s)@ == old(s)@.push(c),
{
    s.push(c)
}

/// The substitution applied to each character of a path component.
pub open spec fn sub_char_spec(c: char) -> char {
    if c == ':' || c == '/' || c == '\\' || c == '?' || c == '|' || c == '*' {
        '-'
    } else if c == '"' {
        '\''
    } else if c == '<' {
        '['
    } else if c == '>' {
        ']'
    } else {
        c
    }
}

/// The characters that the substitution replaces.
pub open spec fn is_target(c: char) -> bool {
    c == ':' || c == '/' || c == '\\' || c == '?' || c == '"' || c == '<' || c == '>' || c == '|'
        || c == '*'
}

pub open spec fn substituted(s: Seq<char>) -> Seq<char> {
    s.map_values(|c: char| sub_char_spec(c))
}

pub open spec fn trim_start(s: Seq<char>) -> Seq<char>
    decreases s.len(),
{
    if s.len() > 0 && is_white_space(s[0]) {
        trim_start(s.drop_first())
    } else {
        s
    }
}

pub open spec fn trim_end(s: Seq<char>) -> Seq<char>
    decreases s.len(),
{
    if s.len() > 0 && is_white_space(s.last()) {
        trim_end(s.drop_last())
    } else {
        s
    }
}

/// `s` without its leading and trailing white space.
pub open spec fn trimmed(s: Seq<char>) -> Seq<char> {
    trim_end(trim_start(s))
}

/// A free-text value made safe for use as one path component.
pub open spec fn sanitized(s: Seq<char>) -> Seq<char> {
    trimmed(substituted(s))
}

/// `a` and `b` hold the same characters.
pub fn same_text(a: &str, b: &str) -> (r: bool)
    ensures
        r == (a@ == b@),
{
    let n = a.unicode_len();
    if n != b.unicode_len() {
        return false;
    }
    let mut i: usize = 0;
    while i < n
        invariant
            n == a@.len() == b@.len(),
            i <= n,
            forall|j: int| 0 <= j < i ==> a@[j] == b@[j],
        decreases n - i,
    {
        if a.get_char(i) != b.get_char(i) {
            return false;
        }
        i = i + 1;
    }
    assert(a@ =~= b@);
    true
}

/// Replaces one character that is illegal or awkward in a path component.
pub fn sanitize_char(c: char) -> (r: char)
    ensures
        r == sub_char_spec(c),
        !is_target(r),
{
    if c == ':' || c == '/' || c == '\\' || c == '?' || c == '|' || c == '*' {
        '-'
    } else if c == '"' {
        '\''
    } else if c == '<' {
        '['
    } else if c == '>' {
        ']'
    } else {
        c
    }
}

/// `s` without its leading and trailing white space.
pub fn trim(s: &str) -> (r: String)
    ensures
        r@ == trimmed(s@),
{
    let n = s.unicode_len();
    let mut lo: usize = 0;
    assert(s@.subrange(0, n as int) =~= s@);
    while lo < n && is_space(s.get_char(lo))
        invariant
            n == s@.len(),
            lo <= n,
            trim_start(s@) == trim_start(s@.subrange(lo as int, n as int)),
        decreases n - lo,
    {
        assert(s@.subrange(lo as int, n as int).drop_first() =~= s@.subrange(lo + 1, n as int));
        lo = lo + 1;
    }
    let ghost rest = s@.subrange(lo as int, n as int);
    assert(trim_start(rest) == rest);
    let mut hi: usize = n;
    while hi > lo && is_space(s.get_char(hi - 1))
        invariant
            n == s@.len(),
            lo <= hi <= n,
            rest == s@.subrange(lo as int, n as int),
            trim_end(rest) == trim_end(s@.subrange(lo as int, hi as int)),
        decreases hi - lo,
    {
        assert(s@.subrange(lo as int, hi as int).drop_last() =~= s@.subrange(lo as int, hi - 1));
        hi = hi - 1;
    }
    let ghost kept = s@.subrange(lo as int, hi as int);
    assert(trim_end(kept) == kept);
    String::from_str(s.substring_char(lo, hi))
}

/// Substitutes every character of `s` and trims surrounding white space.
pub fn sanitize(s: &str) -> (r: String)
    ensures
        r@ == sanitized(s@),
{
    let n = s.unicode_len();
    let mut m = String::new();
    let mut i: usize = 0;
    while i < n
        invariant
            n == s@.len(),
            i <= n,
            m@ == substituted(s@.subrange(0, i as int)),
        decreases n - i,
    {
        let c = s.get_char(i);
        push_char(&mut m, sanitize_char(c));
        assert(s@.subrange(0, i + 1) =~= s@.subrange(0, i as int).push(c));
        i = i + 1;
        assert(m@ =~= substituted(s@.subrange(0, i as int)));
    }
    assert(s@.subrange(0, n as int) =~= s@);
    trim(m.as_str())
}

proof fn lemma_trim_start_shape(s: Seq<char>)
    ensures
        trim_start(s).len() <= s.len(),
        trim_start(s) =~= s.subrange(s.len() - trim_start(s).len(), s.len() as int),
        trim_start(s).len() == 0 || !is_white_space(trim_start(s)[0]),
    decreases s.len(),
{
    if s.len() > 0 && is_white_space(s[0]) {
        lemma_trim_start_shape(s.drop_first());
    }
}

proof fn lemma_trim_end_shape(s: Seq<char>)
    ensures
        trim_end(s).len() <= s.len(),
        trim_end(s) =~= s.subrange(0, trim_end(s).len() as int),
        trim_end(s).len() == 0 || !is_white_space(trim_end(s).last()),
        s.len() > 0 && !is_white_space(s[0]) ==> trim_end(s).len() > 0,
    decreases s.len(),
{
    if s.len() > 0 && is_white_space(s.last()) {
        lemma_trim_end_shape(s.drop_last());
    }
}

/// Trimming keeps a contiguous run of the input, and leaves nothing to trim.
proof fn lemma_trimmed_shape(s: Seq<char>)
    ensures
        exists|a: int, b: int| 0 <= a <= b <= s.len() && trimmed(s) == s.subrange(a, b),
        trim_start(trimmed(s)) == trimmed(s),
        trim_end(trimmed(s)) == trimmed(s),
{
    let u = trim_start(s);
    lemma_trim_start_shape(s);
    lemma_trim_end_shape(u);
    let t = trim_end(u);
    let a = s.len() - u.len();
    assert(t =~= s.subrange(a, a + t.len()));
    if t.len() > 0 {
        assert(t[0] == u.subrange(0, t.len() as int)[0]);
    }
    if t.len() > 0 && is_white_space(t.last()) {
        assert(false);
    }
}

/// No character that the substitution produces is itself replaced by it.
pub proof fn lemma_substitution_output_is_final(c: char)
    ensures
        !is_target(sub_char_spec(c)),
        sub_char_spec(sub_char_spec(c)) == sub_char_spec(c),
{
}

/// Substituting twice gives what substituting once gives.
pub proof fn lemma_substituted_twice(s: Seq<char>)
    ensures
        substituted(substituted(s)) == substituted(s),
{
    assert(substituted(substituted(s)) =~= substituted(s));
}

/// Sanitizing an already sanitized value leaves it unchanged.
pub proof fn lemma_sanitize_idempotent(s: Seq<char>)
    ensures
        sanitized(sanitized(s)) == sanitized(s),
{
    let m = substituted(s);
    let t = trimmed(m);
    lemma_trimmed_shape(m);
    let (a, b) = choose|a: int, b: int| 0 <= a <= b <= m.len() && t == m.subrange(a, b);
    assert(substituted(t) =~= t);
}

/// Every occurrence of `from` in `s` replaced by `to`.
pub open spec fn replace_char(s: Seq<char>, from: char, to: char) -> Seq<char> {
    s.map_values(|c: char| if c == from { to } else { c })
}

/// The nine single-character replacements, one pass each, in their fixed order.
pub open spec fn replace_in_order(s: Seq<char>) -> Seq<char> {
    replace_char(
        replace_char(
            replace_char(
                replace_char(
                    replace_char(
                        replace_char(
                            replace_char(replace_char(replace_char(s, ':', '-'), '/', '-'), '\\', '-'),
                            '?',
                            '-',
                        ),
                        '"',
                        '\'',
                    ),
                    '<',
                    '[',
                ),
                '>',
                ']',
            ),
            '|',
            '-',
        ),
        '*',
        '-',
    )
}

/// The ordered passes of single replacements agree with one simultaneous
/// substitution of every character.
pub proof fn lemma_ordered_passes_match_single_pass(s: Seq<char>)
    ensures
        replace_in_order(s) == substituted(s),
{
    assert(replace_in_order(s) =~= substituted(s));
}

} // verus!
