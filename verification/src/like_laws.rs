//! What the shapes of LIKE patterns mean.

use vstd::prelude::*;
use vstd::utf8::{encode_scalar, encode_utf8, is_ascii_chars};

use crate::like::{
    has_at, like_text, plain, shape_of, simple_shape, underscore_from, LikeShape, PERCENT, UNDERSCORE,
};
use crate::outside::occurs_at;

verus! {

/// Whether a byte string matches a pattern in which a percent sign stands for any bytes, an
/// underscore for any one byte and every other byte for itself.
pub open spec fn like(s: Seq<u8>, p: Seq<u8>) -> bool
    decreases s.len() + p.len(),
{
    if p.len() == 0 {
        s.len() == 0
    } else if p[0] == PERCENT {
        like(s, p.skip(1)) || (s.len() > 0 && like(s.skip(1), p))
    } else {
        s.len() > 0 && (p[0] == UNDERSCORE || p[0] == s[0]) && like(s.skip(1), p.skip(1))
    }
}

/// Whether a byte string matches from byte `k` on.
pub open spec fn like_from(s: Seq<u8>, p: Seq<u8>, k: int) -> bool {
    0 <= k <= s.len() && like(s.skip(k), p)
}

/// A percent sign takes any number of bytes.
proof fn like_percent(s: Seq<u8>, p: Seq<u8>)
    requires
        p.len() > 0,
        p[0] == PERCENT,
    ensures
        like(s, p) == exists|k: int| #[trigger] like_from(s, p.skip(1), k),
    decreases s.len(),
{
    let q = p.skip(1);
    assert(s.skip(0) =~= s);
    if like(s, q) {
        assert(like_from(s, q, 0));
    }
    if s.len() > 0 {
        let t = s.skip(1);
        like_percent(t, p);
        if like(t, p) {
            let k = choose|k: int| #[trigger] like_from(t, q, k);
            assert(t.skip(k) =~= s.skip(k + 1));
            assert(like_from(s, q, k + 1));
        }
        if exists|k: int| #[trigger] like_from(s, q, k) {
            let k = choose|k: int| #[trigger] like_from(s, q, k);
            if k > 0 {
                assert(t.skip(k - 1) =~= s.skip(k));
                assert(like_from(t, q, k - 1));
            }
        }
    }
}

/// Bytes without wildcards match themselves, before whatever comes next.
proof fn like_literal(s: Seq<u8>, p: Seq<u8>, rest: Seq<u8>)
    requires
        plain(p),
    ensures
        like(s, p + rest) == (has_at(s, p, 0) && like(s.skip(p.len() as int), rest)),
    decreases p.len(),
{
    let n = p.len() as int;
    if n == 0 {
        assert(p + rest =~= rest);
        assert(s.skip(0) =~= s);
        assert(s.subrange(0, 0) =~= p);
    } else {
        let q = p.skip(1);
        assert((p + rest).skip(1) =~= q + rest);
        assert(plain(q)) by {
            assert forall|i: int| 0 <= i < q.len() implies #[trigger] q[i] != PERCENT && q[i]
                != UNDERSCORE by {
                assert(p[i + 1] != PERCENT && p[i + 1] != UNDERSCORE);
            }
        }
        assert(p[0] != PERCENT && p[0] != UNDERSCORE);
        if s.len() > 0 {
            let t = s.skip(1);
            like_literal(t, q, rest);
            if n <= s.len() {
                assert(t.skip(n - 1) =~= s.skip(n));
            }
            if p[0] == s[0] && has_at(t, q, 0) {
                assert(s.subrange(0, n) =~= p) by {
                    assert forall|i: int| 0 <= i < n implies s[i] == p[i] by {
                        if i > 0 {
                            assert(t.subrange(0, n - 1)[i - 1] == q[i - 1]);
                        }
                    }
                }
            }
            if has_at(s, p, 0) {
                assert(s[0] == p[0]) by {
                    assert(s.subrange(0, n)[0] == p[0]);
                }
                assert(t.subrange(0, n - 1) =~= q) by {
                    assert forall|i: int| 0 <= i < n - 1 implies t[i] == q[i] by {
                        assert(s.subrange(0, n)[i + 1] == p[i + 1]);
                    }
                }
            }
        }
    }
}

/// A percent sign at the end takes whatever is left.
proof fn like_any(s: Seq<u8>)
    ensures
        like(s, seq![PERCENT]),
{
    let p = seq![PERCENT];
    like_percent(s, p);
    assert(p.skip(1) =~= Seq::empty());
    assert(like_from(s, p.skip(1), s.len() as int));
}

/// The first underscore is an underscore.
proof fn underscore_there(s: Seq<u8>, i: int)
    requires
        0 <= i,
    ensures
        underscore_from(s, i) matches Some(k) ==> i <= k < s.len() && s[k] == UNDERSCORE,
    decreases s.len() - i,
{
    if i < s.len() && s[i] != UNDERSCORE {
        underscore_there(s, i + 1);
    }
}

/// The shape that is read off a pattern accepts just the byte strings that match the pattern.
pub proof fn law_shape_means_pattern(b: Seq<u8>, s: Seq<u8>)
    requires
        b.len() > 0,
        simple_shape(b) is Some,
    ensures
        simple_shape(b)->0.matches(s) == like(s, b),
{
    let front = b.drop_last();
    let back = b.subrange(1, b.len() as int);
    let middle = b.subrange(1, b.len() - 1);
    let any = seq![PERCENT];
    match simple_shape(b)->0 {
        LikeShape::Any => {
            assert(b =~= any);
            like_any(s);
        },
        LikeShape::Prefix(p) => {
            assert(b =~= p + any);
            like_literal(s, p, any);
            like_any(s.skip(p.len() as int));
        },
        LikeShape::Suffix(p) => {
            assert(b.skip(1) =~= p);
            like_percent(s, b);
            assert(p + Seq::empty() =~= p);
            if like(s, b) {
                let k = choose|k: int| #[trigger] like_from(s, b.skip(1), k);
                let t = s.skip(k);
                like_literal(t, p, Seq::empty());
                assert(t.len() == p.len());
                assert(s.subrange(s.len() - p.len(), s.len() as int) =~= t.subrange(
                    0,
                    p.len() as int,
                ));
            }
            if s.len() >= p.len() && has_at(s, p, s.len() - p.len()) {
                let k = s.len() - p.len();
                let t = s.skip(k);
                like_literal(t, p, Seq::empty());
                assert(t.subrange(0, p.len() as int) =~= s.subrange(k, k + p.len()));
                assert(like_from(s, b.skip(1), k));
            }
        },
        LikeShape::Contains(p) => {
            assert(b.skip(1) =~= p + any);
            like_percent(s, b);
            if like(s, b) {
                let k = choose|k: int| #[trigger] like_from(s, b.skip(1), k);
                let t = s.skip(k);
                like_literal(t, p, any);
                assert(s.subrange(k, k + p.len()) =~= t.subrange(0, p.len() as int));
                assert(occurs_at(s, p, k));
            }
            if exists|i: int| #[trigger] occurs_at(s, p, i) {
                let k = choose|i: int| #[trigger] occurs_at(s, p, i);
                let t = s.skip(k);
                like_literal(t, p, any);
                like_any(t.skip(p.len() as int));
                assert(t.subrange(0, p.len() as int) =~= s.subrange(k, k + p.len()));
                assert(like_from(s, b.skip(1), k));
            }
        },
        LikeShape::PrefixWildcardSuffix { prefix, suffix } => {
            let k = underscore_from(front, 0)->0;
            underscore_there(front, 0);
            let n = prefix.len() as int;
            let one = seq![UNDERSCORE];
            let rest = one + suffix + any;
            assert(b =~= prefix + rest);
            like_literal(s, prefix, rest);
            let t = s.skip(n);
            assert(rest[0] == UNDERSCORE);
            assert(rest.skip(1) =~= suffix + any);
            if s.len() > n {
                let u = t.skip(1);
                like_literal(u, suffix, any);
                like_any(u.skip(suffix.len() as int));
                if n + 1 + suffix.len() <= s.len() {
                    assert(u.subrange(0, suffix.len() as int) =~= s.subrange(
                        n + 1,
                        n + 1 + suffix.len(),
                    ));
                }
            }
        },
        LikeShape::Regex(_) => {},
    }
}

/// The bytes of one character: one below 128, itself, or a first byte that is not below 128.
proof fn scalar_bytes(c: char)
    ensures
        0 <= c as int,
        c as int <= 0x7F ==> encode_scalar(c as u32).len() == 1 && encode_scalar(c as u32)[0]
            == c as int,
        c as int > 0x7F ==> encode_scalar(c as u32).len() > 0 && encode_scalar(c as u32)[0] >= 0x80,
{
    broadcast use vstd::utf8::char_is_scalar;

    let v: u32 = c as u32;
    assert(v <= 0x7F ==> (v & 0x7F) as u8 == v as u8) by (bit_vector);
    assert(0xC0u8 | ((v >> 6u32) & 0x1F) as u8 >= 0x80u8) by (bit_vector);
    assert(0xE0u8 | ((v >> 12u32) & 0x0F) as u8 >= 0x80u8) by (bit_vector);
    assert(0xF0u8 | ((v >> 18u32) & 0x7) as u8 >= 0x80u8) by (bit_vector);
}

/// A text of ASCII characters matches a pattern exactly if its bytes match those of the pattern.
pub proof fn law_bytes_are_text(t: Seq<char>, p: Seq<char>)
    requires
        is_ascii_chars(t),
    ensures
        like(encode_utf8(t), encode_utf8(p)) == like_text(t, p),
    decreases t.len() + p.len(),
{
    broadcast use vstd::utf8::char_is_scalar;

    let s = encode_utf8(t);
    let b = encode_utf8(p);
    if t.len() > 0 {
        scalar_bytes(t[0]);
        assert(s[0] == t[0] as int);
        assert(s.skip(1) =~= encode_utf8(t.skip(1)));
        assert(t.drop_first() =~= t.skip(1));
        assert(is_ascii_chars(t.skip(1))) by {
            assert forall|i: int| 0 <= i < t.skip(1).len() implies (#[trigger] t.skip(1)[i] as nat)
                < 128 by {
                assert(t.skip(1)[i] == t[i + 1]);
            }
        }
    }
    if p.len() > 0 {
        let q = p.skip(1);
        assert(p.drop_first() =~= q);
        scalar_bytes(p[0]);
        if p[0] as int <= 0x7F {
            assert(b.skip(1) =~= encode_utf8(q));
            assert(b[0] == p[0] as int);
            assert((b[0] == PERCENT) == (p[0] == '%'));
            assert((b[0] == UNDERSCORE) == (p[0] == '_'));
            if t.len() > 0 {
                assert((b[0] == s[0]) == (p[0] == t[0]));
            }
            if p[0] == '%' {
                law_bytes_are_text(t, q);
                if t.len() > 0 {
                    law_bytes_are_text(t.skip(1), p);
                }
            } else if t.len() > 0 {
                law_bytes_are_text(t.skip(1), q);
            }
        } else {
            assert(b[0] >= 0x80);
        }
    }
}

/// A pattern that needs no expression means what LIKE means, byte by byte.
pub proof fn law_pattern(pattern: Seq<char>, s: Seq<u8>)
    requires
        shape_of(pattern) matches Some(shape) && !(shape is Regex),
    ensures
        shape_of(pattern)->0.matches(s) == like(s, encode_utf8(pattern)),
{
    law_shape_means_pattern(encode_utf8(pattern), s);
}

} // verus!
