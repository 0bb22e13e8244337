//! Calls into outside crates.

use ahash::{AHashMap, AHashSet};
use vstd::prelude::*;

use crate::like::{expression, like_text};

verus! {

/// Whether `needle` stands in `hay` at position `i`.
pub open spec fn occurs_at(hay: Seq<u8>, needle: Seq<u8>, i: int) -> bool {
    0 <= i && i + needle.len() <= hay.len() && hay.subrange(i, i + needle.len()) == needle
}

/// `memchr::memmem::find`: the position of the first occurrence of the needle, `None` where there
/// is none.
pub assume_specification[ memchr::memmem::find ](haystack: &[u8], needle: &[u8]) -> (r: Option<
    usize,
>)
    ensures
        r matches Some(i) ==> occurs_at(haystack@, needle@, i as int) && forall|j: int|
            0 <= j < i ==> !#[trigger] occurs_at(haystack@, needle@, j),
        r is None ==> forall|j: int| !#[trigger] occurs_at(haystack@, needle@, j),
;

/// `memchr::memmem::Finder`.
#[verifier::external_type_specification]
#[verifier::external_body]
pub struct ExFinder<'n>(memchr::memmem::Finder<'n>);

/// The needle that a finder looks for.
pub uninterp spec fn needle_of(f: memchr::memmem::Finder<'static>) -> Seq<u8>;

/// `memchr::memmem::Finder::new`, made independent of the needle by `into_owned`: a finder that
/// looks for the needle.
#[verifier::external_body]
pub(crate) fn finder_new(needle: &[u8]) -> (r: memchr::memmem::Finder<'static>)
    ensures
        needle_of(r) == needle@,
{
    memchr::memmem::Finder::new(needle).into_owned()
}

/// `memchr::memmem::Finder::find`: the position of the first occurrence of the needle, `None` where
/// there is none.
#[verifier::external_body]
pub(crate) fn finder_find(f: &memchr::memmem::Finder<'static>, haystack: &[u8]) -> (r: Option<usize>)
    ensures
        r matches Some(i) ==> occurs_at(haystack@, needle_of(*f), i as int) && forall|j: int|
            0 <= j < i ==> !#[trigger] occurs_at(haystack@, needle_of(*f), j),
        r is None ==> forall|j: int| !#[trigger] occurs_at(haystack@, needle_of(*f), j),
{
    f.find(haystack)
}

/// `ahash::RandomState`.
#[verifier::external_type_specification]
#[verifier::external_body]
pub struct ExRandomState(ahash::RandomState);

/// `ahash::AHashSet`.
#[verifier::external_type_specification]
#[verifier::external_body]
#[verifier::reject_recursive_types(T)]
#[verifier::reject_recursive_types(S)]
pub struct ExAHashSet<T, S>(ahash::AHashSet<T, S>);

/// What a set of numbers holds.
pub uninterp spec fn numbers_of(s: AHashSet<i64>) -> Set<i64>;

/// `AHashSet::new`: a set that holds nothing.
#[verifier::external_body]
pub(crate) fn number_set_new() -> (r: AHashSet<i64>)
    ensures
        numbers_of(r) == Set::<i64>::empty(),
{
    AHashSet::new()
}

/// `AHashSet::insert`, which is that of `HashSet`: afterwards the set holds the number too.
#[verifier::external_body]
pub(crate) fn number_set_insert(s: &mut AHashSet<i64>, v: i64)
    ensures
        numbers_of(*final(s)) == numbers_of(*old(s)).insert(v),
{
    s.insert(v);
}

/// `AHashSet::contains`, which is that of `HashSet`: whether the set holds the number.
#[verifier::external_body]
pub(crate) fn number_set_contains(s: &AHashSet<i64>, v: i64) -> (r: bool)
    ensures
        r == numbers_of(*s).contains(v),
{
    s.contains(&v)
}

/// `ahash::AHashMap`.
#[verifier::external_type_specification]
#[verifier::external_body]
#[verifier::reject_recursive_types(K)]
#[verifier::reject_recursive_types(V)]
#[verifier::reject_recursive_types(S)]
pub struct ExAHashMap<K, V, S>(ahash::AHashMap<K, V, S>);

/// The row of each identifier that an index holds.
pub uninterp spec fn index_of_ids(m: AHashMap<u64, usize>) -> Map<u64, usize>;

/// `AHashMap::new`: an index that holds nothing.
#[verifier::external_body]
pub(crate) fn id_index_new() -> (r: AHashMap<u64, usize>)
    ensures
        index_of_ids(r) =~= map![],
{
    AHashMap::new()
}

/// `AHashMap::insert`, which is that of `HashMap`: afterwards the index maps the identifier to the
/// row, whatever it mapped it to before.
#[verifier::external_body]
pub(crate) fn id_index_insert(m: &mut AHashMap<u64, usize>, id: u64, row: usize)
    ensures
        index_of_ids(*final(m)) == index_of_ids(*old(m)).insert(id, row),
{
    m.insert(id, row);
}

/// The number of each text that an index of texts holds.
pub uninterp spec fn numbers_of_texts(m: AHashMap<Vec<u8>, u32>) -> Map<Seq<u8>, u32>;

/// `AHashMap::new`: an index of texts that holds nothing.
#[verifier::external_body]
pub(crate) fn text_index_new() -> (r: AHashMap<Vec<u8>, u32>)
    ensures
        numbers_of_texts(r) =~= map![],
{
    AHashMap::new()
}

/// `AHashMap::get`, which is that of `HashMap`: the number that the index holds for the text.
#[verifier::external_body]
pub(crate) fn text_index_get(m: &AHashMap<Vec<u8>, u32>, text: &[u8]) -> (r: Option<u32>)
    ensures
        r is Some == numbers_of_texts(*m).dom().contains(text@),
        r matches Some(n) ==> n == numbers_of_texts(*m)[text@],
{
    m.get(text).copied()
}

/// `AHashMap::insert`, which is that of `HashMap`: afterwards the index holds the number for the
/// text, whatever it held for it before.
#[verifier::external_body]
pub(crate) fn text_index_insert(m: &mut AHashMap<Vec<u8>, u32>, text: &[u8], n: u32)
    ensures
        numbers_of_texts(*final(m)) == numbers_of_texts(*old(m)).insert(text@, n),
{
    m.insert(text.to_vec(), n);
}

/// `regex::Regex`.
#[verifier::external_type_specification]
#[verifier::external_body]
pub struct ExRegex(regex::Regex);

/// `regex::Error`.
#[verifier::external_type_specification]
#[verifier::external_body]
pub struct ExRegexError(regex::Error);

/// Whether an expression can be compiled.
pub uninterp spec fn regex_compiles(pattern: Seq<char>) -> bool;

/// The expression that a compiled one was made from.
pub uninterp spec fn regex_source(re: regex::Regex) -> Seq<char>;

/// Whether an expression is found in a text.
pub uninterp spec fn regex_found(pattern: Seq<char>, text: Seq<char>) -> bool;

/// `regex::Regex::new`: compiles an expression, which stays known.
pub assume_specification[ regex::Regex::new ](re: &str) -> (r: Result<regex::Regex, regex::Error>)
    ensures
        r is Ok == regex_compiles(re@),
        r matches Ok(c) ==> regex_source(c) == re@,
;

/// `regex::Regex::is_match`: whether the expression is found in the text. An expression that is anchored
/// at both ends and made of escaped or plain characters, `.` for any one character but a line feed, and
/// `.*` for any number of them, is found in a text without line feeds exactly if the text is such a
/// sequence of characters: if it matches the pattern with `_` for `.` and `%` for `.*`.
pub assume_specification[ regex::Regex::is_match ](re: &regex::Regex, haystack: &str) -> (r: bool)
    ensures
        r == regex_found(regex_source(*re), haystack@),
        forall|p: Seq<char>|
            regex_source(*re) == #[trigger] expression(p) && !haystack@.contains('\n') ==> r
                == like_text(haystack@, p),
;

/// `std::str::from_utf8`: the text that the bytes encode, where they encode one.
#[verifier::external_body]
pub(crate) fn text_from_bytes(bytes: &[u8]) -> (r: Option<&str>)
    ensures
        r is Some == vstd::utf8::valid_utf8(bytes@),
        r matches Some(t) ==> t@ == vstd::utf8::decode_utf8(bytes@),
{
    std::str::from_utf8(bytes).ok()
}

/// A letter of the English alphabet in lower case, any other character as it is.
pub open spec fn lower_letter(c: char) -> char {
    if 'A' <= c && c <= 'Z' {
        (c as int + 32) as char
    } else {
        c
    }
}

/// Whether two texts are the same but for the case of the letters of the English alphabet.
pub open spec fn same_but_case(a: Seq<char>, b: Seq<char>) -> bool {
    a.len() == b.len() && forall|i: int|
        0 <= i < a.len() ==> lower_letter(#[trigger] a[i]) == lower_letter(b[i])
}

/// `str::eq_ignore_ascii_case`: whether the texts are the same in lower case, where only the letters
/// of the English alphabet have one.
#[verifier::external_body]
pub(crate) fn eq_but_case(a: &str, b: &str) -> (r: bool)
    ensures
        r == same_but_case(a@, b@),
{
    a.eq_ignore_ascii_case(b)
}

/// `String::push`: appends a character.
#[verifier::external_body]
pub(crate) fn push_char(s: &mut String, c: char)
    ensures
        final(s)@ == old(s)@.push(c),
{
    s.push(c);
}

/// `sort_unstable` of a slice of numbers: the same numbers, in ascending order.
#[verifier::external_body]
pub(crate) fn sort_rows(v: &mut Vec<usize>)
    ensures
        final(v)@.to_multiset() == old(v)@.to_multiset(),
        forall|i: int, j: int| 0 <= i <= j < final(v)@.len() ==> final(v)@[i] <= final(v)@[j],
{
    v.sort_unstable();
}

/// The text that bytes stand for where what is not text is replaced.
pub uninterp spec fn lossy_text(bytes: Seq<u8>) -> Seq<char>;

/// `String::from_utf8_lossy`: the text that the bytes encode, where they encode one; else a text
/// in which what is no part of one is replaced. How it is replaced is not stated.
#[verifier::external_body]
pub(crate) fn text_lossy(bytes: &[u8]) -> (r: String)
    ensures
        r@ == lossy_text(bytes@),
        vstd::utf8::valid_utf8(bytes@) ==> r@ == vstd::utf8::decode_utf8(bytes@),
{
    String::from_utf8_lossy(bytes).into_owned()
}

/// A decimal digit.
pub open spec fn digit(d: int) -> char {
    (48 + d) as char
}

/// The decimal digits of a natural number.
pub open spec fn decimal_digits(n: int) -> Seq<char>
    decreases n,
{
    if n < 10 {
        seq![digit(n)]
    } else {
        decimal_digits(n / 10).push(digit(n % 10))
    }
}

/// A number in decimal.
pub open spec fn decimal(n: int) -> Seq<char> {
    if n < 0 {
        seq!['-'] + decimal_digits(-n)
    } else {
        decimal_digits(n)
    }
}

/// `ToString::to_string` of an integer: the number in decimal.
#[verifier::external_body]
pub(crate) fn int_text(v: i64) -> (r: String)
    ensures
        r@ == decimal(v as int),
{
    v.to_string()
}

} // verus!
