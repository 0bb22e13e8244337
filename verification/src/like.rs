//! LIKE patterns: sorting them by shape, and matching byte strings against them.

use vstd::prelude::*;
use vstd::slice::slice_subrange;
use vstd::utf8::{
    decode_utf8, encode_utf8, encode_utf8_decode_utf8, encode_utf8_valid_utf8, is_ascii_chars,
    valid_utf8,
};

use crate::like_laws::{law_bytes_are_text, law_pattern};
use crate::model::bytes_eq;
use crate::outside::{
    finder_find, finder_new, needle_of, occurs_at, push_char, regex_compiles, regex_found,
    regex_source, text_from_bytes,
};

verus! {

/// The wildcard for any bytes.
pub const PERCENT: u8 = 37;

/// The wildcard for one byte.
pub const UNDERSCORE: u8 = 95;

/// A LIKE pattern by its shape.
pub enum LikeKind {
    /// Strings that start so.
    Prefix(Vec<u8>),
    /// Strings that end so.
    Suffix(Vec<u8>),
    /// Strings that hold this.
    Contains(Vec<u8>),
    /// Strings that start with the prefix, one more byte and the suffix.
    PrefixWildcardSuffix { prefix: Vec<u8>, suffix: Vec<u8> },
    /// Every string.
    Any,
    /// Texts in which an expression is found.
    Regex(regex::Regex),
}

/// A LIKE pattern by its shape.
#[verifier::ext_equal]
pub enum LikeShape {
    Prefix(Seq<u8>),
    Suffix(Seq<u8>),
    Contains(Seq<u8>),
    PrefixWildcardSuffix { prefix: Seq<u8>, suffix: Seq<u8> },
    Any,
    Regex(Seq<char>),
}

impl View for LikeKind {
    type V = LikeShape;

    open spec fn view(&self) -> LikeShape {
        match *self {
            LikeKind::Prefix(p) => LikeShape::Prefix(p@),
            LikeKind::Suffix(p) => LikeShape::Suffix(p@),
            LikeKind::Contains(p) => LikeShape::Contains(p@),
            LikeKind::PrefixWildcardSuffix { prefix, suffix } => LikeShape::PrefixWildcardSuffix {
                prefix: prefix@,
                suffix: suffix@,
            },
            LikeKind::Any => LikeShape::Any,
            LikeKind::Regex(re) => LikeShape::Regex(regex_source(re)),
        }
    }
}

/// Whether `s` has `p` at position `at`.
pub open spec fn has_at(s: Seq<u8>, p: Seq<u8>, at: int) -> bool {
    at + p.len() <= s.len() && s.subrange(at, at + p.len()) == p
}

impl LikeShape {
    /// Whether a byte string matches.
    pub open spec fn matches(self, s: Seq<u8>) -> bool {
        match self {
            LikeShape::Prefix(p) => has_at(s, p, 0),
            LikeShape::Suffix(p) => s.len() >= p.len() && has_at(s, p, s.len() - p.len()),
            LikeShape::Contains(p) => exists|i: int| #[trigger] occurs_at(s, p, i),
            LikeShape::PrefixWildcardSuffix { prefix, suffix } => has_at(s, prefix, 0) && has_at(
                s,
                suffix,
                prefix.len() as int + 1,
            ),
            LikeShape::Any => true,
            LikeShape::Regex(source) => valid_utf8(s) && regex_found(source, decode_utf8(s)),
        }
    }
}

/// A needle that is looked for in many haystacks.
pub struct PrecompiledFinder {
    finder: memchr::memmem::Finder<'static>,
}

impl View for PrecompiledFinder {
    type V = Seq<u8>;

    closed spec fn view(&self) -> Seq<u8> {
        needle_of(self.finder)
    }
}

impl PrecompiledFinder {
    /// Prepares to look for a needle.
    pub fn new(needle: &[u8]) -> (r: PrecompiledFinder)
        ensures
            r@ == needle@,
    {
        PrecompiledFinder { finder: finder_new(needle) }
    }

    /// The position of the first occurrence of the needle.
    pub fn find(&self, haystack: &[u8]) -> (r: Option<usize>)
        ensures
            r matches Some(i) ==> occurs_at(haystack@, self@, i as int) && forall|j: int|
                0 <= j < i ==> !#[trigger] occurs_at(haystack@, self@, j),
            r is None ==> forall|j: int| !#[trigger] occurs_at(haystack@, self@, j),
    {
        finder_find(&self.finder, haystack)
    }
}

/// Whether `s` starts with `pattern`.
pub fn fast_eq(pattern: &[u8], s: &[u8]) -> (r: bool)
    ensures
        r == has_at(s@, pattern@, 0),
{
    if pattern.len() > s.len() {
        return false;
    }
    bytes_eq(pattern, slice_subrange(s, 0, pattern.len()))
}

/// Whether a text matches a pattern in which a percent sign stands for any characters, an underscore
/// for any one character and every other character for itself.
pub open spec fn like_text(t: Seq<char>, p: Seq<char>) -> bool
    decreases t.len() + p.len(),
{
    if p.len() == 0 {
        t.len() == 0
    } else if p[0] == '%' {
        like_text(t, p.skip(1)) || (t.len() > 0 && like_text(t.skip(1), p))
    } else {
        t.len() > 0 && (p[0] == '_' || p[0] == t[0]) && like_text(t.skip(1), p.skip(1))
    }
}

/// Tests whether a byte string matches. A text of ASCII characters without a line feed matches the shape
/// of a pattern exactly if it matches the pattern.
pub fn like_matches_bytes(kind: &LikeKind, s: &[u8]) -> (r: bool)
    ensures
        r == kind@.matches(s@),
        forall|p: Seq<char>, t: Seq<char>| #[trigger]
            shape_of(p) == Some(kind@) && s@ == #[trigger] encode_utf8(t) && is_ascii_chars(t)
                && !t.contains('\n') ==> r == like_text(t, p),
{
    let r: bool = do_match(kind, s);
    assert forall|p: Seq<char>, t: Seq<char>| #[trigger]
        shape_of(p) == Some(kind@) && s@ == #[trigger] encode_utf8(t) && is_ascii_chars(t)
            && !t.contains('\n') implies r == like_text(t, p) by {
        if kind@ is Regex {
            assert(kind@ == LikeShape::Regex(expression(p)));
            encode_utf8_decode_utf8(t);
            encode_utf8_valid_utf8(t);
        } else {
            law_pattern(p, s@);
            law_bytes_are_text(t, p);
        }
    }
    r
}

fn do_match(kind: &LikeKind, s: &[u8]) -> (r: bool)
    ensures
        r == kind@.matches(s@),
        forall|p: Seq<char>|
            kind@ == LikeShape::Regex(#[trigger] expression(p)) && valid_utf8(s@) && !decode_utf8(
                s@,
            ).contains('\n') ==> r == like_text(decode_utf8(s@), p),
{
    match kind {
        LikeKind::Prefix(p) => fast_eq(p.as_slice(), s),
        LikeKind::Suffix(p) => {
            if s.len() < p.len() {
                return false;
            }
            bytes_eq(p.as_slice(), slice_subrange(s, s.len() - p.len(), s.len()))
        },
        LikeKind::Contains(p) => match memchr::memmem::find(s, p.as_slice()) {
            None => false,
            Some(i) => {
                proof {
                    let shape = kind@;
                    assert(shape->Contains_0 == p@);
                    assert(occurs_at(s@, shape->Contains_0, i as int));
                }
                true
            },
        },
        LikeKind::PrefixWildcardSuffix { prefix, suffix } => {
            if s.len() <= prefix.len() || s.len() - prefix.len() - 1 < suffix.len() {
                return false;
            }
            let at: usize = prefix.len() + 1;
            fast_eq(prefix.as_slice(), s) && bytes_eq(
                slice_subrange(s, at, at + suffix.len()),
                suffix.as_slice(),
            )
        },
        LikeKind::Any => true,
        LikeKind::Regex(re) => match text_from_bytes(s) {
            None => false,
            Some(text) => re.is_match(text),
        },
    }
}

/// Whether a byte string holds no wildcard.
pub open spec fn plain(s: Seq<u8>) -> bool {
    forall|i: int| 0 <= i < s.len() ==> #[trigger] s[i] != PERCENT && s[i] != UNDERSCORE
}

/// The first underscore from position `i` on.
pub open spec fn underscore_from(s: Seq<u8>, i: int) -> Option<int>
    decreases s.len() - i,
{
    if i >= s.len() {
        None
    } else if s[i] == UNDERSCORE {
        Some(i)
    } else {
        underscore_from(s, i + 1)
    }
}

/// Whether a character has a meaning of its own in an expression.
pub open spec fn special(c: char) -> bool {
    c == '.' || c == '+' || c == '*' || c == '?' || c == '^' || c == '$' || c == '(' || c == ')'
        || c == '[' || c == ']' || c == '{' || c == '}' || c == '|' || c == '\\'
}

/// The part of the expression that stands for one character of a pattern.
pub open spec fn expanded(c: char) -> Seq<char> {
    if c == '%' {
        seq!['.', '*']
    } else if c == '_' {
        seq!['.']
    } else if special(c) {
        seq!['\\', c]
    } else {
        seq![c]
    }
}

/// The parts of the expression that stand for the characters of a pattern.
pub open spec fn expanded_all(p: Seq<char>) -> Seq<char>
    decreases p.len(),
{
    if p.len() == 0 {
        Seq::empty()
    } else {
        expanded_all(p.drop_last()) + expanded(p.last())
    }
}

/// The expression for a pattern, anchored at both ends.
pub open spec fn expression(p: Seq<char>) -> Seq<char> {
    seq!['^'] + expanded_all(p) + seq!['$']
}

/// The shape of a pattern that needs no expression.
pub open spec fn simple_shape(b: Seq<u8>) -> Option<LikeShape> {
    let from_any = b[0] == PERCENT;
    let to_any = b.last() == PERCENT;
    let front = b.drop_last();
    let back = b.subrange(1, b.len() as int);
    let middle = b.subrange(1, b.len() - 1);
    if b.len() == 1 && from_any {
        Some(LikeShape::Any)
    } else if !from_any && to_any && plain(front) {
        Some(LikeShape::Prefix(front))
    } else if !from_any && to_any && split_shape(front) is Some {
        split_shape(front)
    } else if from_any && !to_any && plain(back) {
        Some(LikeShape::Suffix(back))
    } else if from_any && to_any && b.len() > 2 && plain(middle) {
        Some(LikeShape::Contains(middle))
    } else {
        None
    }
}

/// The shape of a pattern with one underscore before its last percent sign.
pub open spec fn split_shape(front: Seq<u8>) -> Option<LikeShape> {
    match underscore_from(front, 0) {
        None => None,
        Some(k) => {
            let head = front.subrange(0, k);
            let rest = front.subrange(k + 1, front.len() as int);
            if plain(head) && plain(rest) && rest.len() > 0 {
                Some(LikeShape::PrefixWildcardSuffix { prefix: head, suffix: rest })
            } else {
                None
            }
        },
    }
}

/// The shape of a pattern; none where it has no wildcard or its expression cannot be compiled.
pub open spec fn shape_of(pattern: Seq<char>) -> Option<LikeShape> {
    let b = encode_utf8(pattern);
    if b.len() == 0 || plain(b) {
        None
    } else if simple_shape(b) is Some {
        simple_shape(b)
    } else if regex_compiles(expression(pattern)) {
        Some(LikeShape::Regex(expression(pattern)))
    } else {
        None
    }
}

/// Tests whether a byte string holds no wildcard.
pub fn is_plain(s: &[u8]) -> (r: bool)
    ensures
        r == plain(s@),
{
    let mut i: usize = 0;
    while i < s.len()
        invariant
            i <= s.len(),
            forall|k: int| 0 <= k < i ==> #[trigger] s@[k] != PERCENT && s@[k] != UNDERSCORE,
        decreases s.len() - i,
    {
        if s[i] == PERCENT || s[i] == UNDERSCORE {
            return false;
        }
        i = i + 1;
    }
    true
}

fn find_underscore(s: &[u8]) -> (r: Option<usize>)
    ensures
        match r {
            None => underscore_from(s@, 0) is None,
            Some(k) => underscore_from(s@, 0) == Some(k as int) && k < s.len(),
        },
{
    let mut i: usize = 0;
    while i < s.len()
        invariant
            i <= s.len(),
            underscore_from(s@, 0) == underscore_from(s@, i as int),
        decreases s.len() - i,
    {
        if s[i] == UNDERSCORE {
            return Some(i);
        }
        i = i + 1;
    }
    None
}

fn get_split_shape(front: &[u8]) -> (r: Option<LikeKind>)
    ensures
        match r {
            None => split_shape(front@) is None,
            Some(k) => split_shape(front@) == Some(k@),
        },
{
    match find_underscore(front) {
        None => None,
        Some(k) => {
            let head: &[u8] = slice_subrange(front, 0, k);
            let rest: &[u8] = slice_subrange(front, k + 1, front.len());
            if is_plain(head) && is_plain(rest) && rest.len() > 0 {
                Some(
                    LikeKind::PrefixWildcardSuffix {
                        prefix: vstd::slice::slice_to_vec(head),
                        suffix: vstd::slice::slice_to_vec(rest),
                    },
                )
            } else {
                None
            }
        },
    }
}

fn get_simple_shape(b: &[u8]) -> (r: Option<LikeKind>)
    requires
        b.len() > 0,
    ensures
        match r {
            None => simple_shape(b@) is None,
            Some(k) => simple_shape(b@) == Some(k@),
        },
{
    let n: usize = b.len();
    let from_any: bool = b[0] == PERCENT;
    let to_any: bool = b[n - 1] == PERCENT;
    if n == 1 && from_any {
        return Some(LikeKind::Any);
    }
    let front: &[u8] = slice_subrange(b, 0, n - 1);
    let back: &[u8] = slice_subrange(b, 1, n);
    proof {
        assert(front@ =~= b@.drop_last());
    }
    if !from_any && to_any {
        if is_plain(front) {
            return Some(LikeKind::Prefix(vstd::slice::slice_to_vec(front)));
        }
        return get_split_shape(front);
    }
    if from_any && !to_any && is_plain(back) {
        return Some(LikeKind::Suffix(vstd::slice::slice_to_vec(back)));
    }
    if from_any && to_any && n > 2 {
        let middle: &[u8] = slice_subrange(b, 1, n - 1);
        if is_plain(middle) {
            return Some(LikeKind::Contains(vstd::slice::slice_to_vec(middle)));
        }
    }
    None
}

/// Appends the part of the expression that stands for one character.
fn push_expanded(out: &mut String, c: char)
    ensures
        final(out)@ == old(out)@ + expanded(c),
{
    if c == '%' {
        push_char(out, '.');
        push_char(out, '*');
        assert(out@ =~= old(out)@ + expanded(c));
    } else if c == '_' {
        push_char(out, '.');
        assert(out@ =~= old(out)@ + expanded(c));
    } else if c == '.' || c == '+' || c == '*' || c == '?' || c == '^' || c == '$' || c == '(' || c
        == ')' || c == '[' || c == ']' || c == '{' || c == '}' || c == '|' || c == '\\' {
        push_char(out, '\\');
        push_char(out, c);
        assert(out@ =~= old(out)@ + expanded(c));
    } else {
        push_char(out, c);
        assert(out@ =~= old(out)@ + expanded(c));
    }
}

/// The expression for a pattern.
fn build_expression(pattern: &str) -> (r: String)
    ensures
        r@ == expression(pattern@),
{
    let mut out: String = String::new();
    push_char(&mut out, '^');
    assert(out@ =~= seq!['^'] + expanded_all(pattern@.take(0)));
    for c in it: pattern.chars()
        invariant
            it.seq() == pattern@,
            out@ == seq!['^'] + expanded_all(pattern@.take(it.index() as int)),
    {
        proof {
            let k = it.index() as int;
            assert(pattern@.take(k + 1).drop_last() =~= pattern@.take(k));
            assert((seq!['^'] + expanded_all(pattern@.take(k))) + expanded(c) =~= seq!['^'] + (
            expanded_all(pattern@.take(k)) + expanded(c)));
        }
        push_expanded(&mut out, c);
    }
    assert(pattern@.take(pattern@.len() as int) =~= pattern@);
    push_char(&mut out, '$');
    assert(out@ =~= expression(pattern@));
    out
}

/// Sorts a LIKE pattern by its shape. A pattern without wildcards has none: it asks for equality.
pub fn classify_like_pattern(pattern: &str) -> (r: Option<LikeKind>)
    ensures
        match r {
            None => shape_of(pattern@) is None,
            Some(k) => shape_of(pattern@) == Some(k@),
        },
{
    let b: &[u8] = pattern.as_bytes();
    if b.len() == 0 || is_plain(b) {
        return None;
    }
    match get_simple_shape(b) {
        Some(k) => {
            return Some(k);
        },
        None => {},
    }
    let text: String = build_expression(pattern);
    match regex::Regex::new(text.as_str()) {
        Err(_) => None,
        Ok(re) => Some(LikeKind::Regex(re)),
    }
}

} // verus!
