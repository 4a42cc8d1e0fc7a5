//! Text rendering of points: `Affine(Infinity)`, or `Affine(x=Fp64(X), y=Fp64(Y))`
//! with each coordinate written as sixteen upper-case hexadecimal digits.
use vstd::prelude::*;
use crate::affine::Affine;
use crate::params::SWParams;
use crate::projective::Projective;

verus! {

/// The upper-case hexadecimal digit of `d < 16`.
pub open spec fn hex_char(d: u64) -> char {
    if d < 10 {
        (48 + d) as char
    } else {
        (55 + d) as char
    }
}

/// The `i`-th of the sixteen hexadecimal digits of `v`, most significant first.
pub open spec fn hex_digit(v: u64, i: int) -> char {
    hex_char((v >> ((60 - 4 * i) as u64)) & 15u64)
}

/// A field element as `Fp64(` sixteen hexadecimal digits `)`.
pub open spec fn field_text(v: u64) -> Seq<char> {
    seq!['F', 'p', '6', '4', '('] + hex_digits(v) + seq![')']
}

/// The sixteen hexadecimal digits of `v`, most significant first.
pub open spec fn hex_digits(v: u64) -> Seq<char> {
    Seq::new(16, |i: int| hex_digit(v, i))
}

/// The text of an affine point.
pub open spec fn affine_text(a: Affine) -> Seq<char> {
    if a.infinity {
        seq!['A', 'f', 'f', 'i', 'n', 'e', '(', 'I', 'n', 'f', 'i', 'n', 'i', 't', 'y', ')']
    } else {
        seq!['A', 'f', 'f', 'i', 'n', 'e', '(', 'x', '='] + field_text(a.x) + seq![',', ' ', 'y', '=']
            + field_text(a.y) + seq![')']
    }
}

/// Collects characters into a `String` through `FromIterator<char>`.
///
/// Trusted: std documents that collecting `char`s into a `String` gives the string of
/// those characters in order.
#[verifier::external_body]
fn chars_to_string(chars: Vec<char>) -> (r: String)
    ensures
        r@ == chars@,
{
    chars.into_iter().collect()
}

/// Appends the text of a field element.
fn push_field(out: &mut Vec<char>, v: u64)
    ensures
        final(out)@ == old(out)@ + field_text(v),
{
    let mut head = vec!['F', 'p', '6', '4', '('];
    out.append(&mut head);
    let ghost start = out@;
    let mut i: u64 = 0;
    while i < 16
        invariant
            i <= 16,
            out@ == start + Seq::new(i as nat, |j: int| hex_digit(v, j)),
        decreases 16 - i,
    {
        let sh: u64 = 60 - 4 * i;
        let d: u64 = (v >> sh) & 15;
        proof {
            assert(d < 16) by (bit_vector)
                requires
                    d == (v >> sh) & 15u64,
            ;
        }
        let c = if d < 10 {
            ((48 + d) as u8) as char
        } else {
            ((55 + d) as u8) as char
        };
        out.push(c);
        proof {
            assert(c == hex_digit(v, i as int));
            assert(out@ =~= start + Seq::new((i + 1) as nat, |j: int| hex_digit(v, j)));
        }
        i = i + 1;
    }
    out.push(')');
    proof {
        assert(out@ =~= old(out)@ + field_text(v));
    }
}

impl Affine {
    /// The text of `self`: `Affine(Infinity)` for the point at infinity, else
    /// `Affine(x=Fp64(X), y=Fp64(Y))` with sixteen upper-case hexadecimal digits per
    /// coordinate.
    pub fn to_text(&self) -> (r: String)
        ensures
            r@ == affine_text(*self),
    {
        if self.infinity {
            let v = vec!['A', 'f', 'f', 'i', 'n', 'e', '(', 'I', 'n', 'f', 'i', 'n', 'i', 't', 'y', ')'];
            proof {
                assert(v@ =~= affine_text(*self));
            }
            chars_to_string(v)
        } else {
            let mut out = vec!['A', 'f', 'f', 'i', 'n', 'e', '(', 'x', '='];
            push_field(&mut out, self.x);
            let mut mid = vec![',', ' ', 'y', '='];
            out.append(&mut mid);
            push_field(&mut out, self.y);
            out.push(')');
            proof {
                assert(out@ =~= affine_text(*self));
            }
            chars_to_string(out)
        }
    }
}

impl Projective {
    /// The text of the affine form of `self`.
    pub fn to_text(&self, params: &SWParams) -> (r: String)
        requires
            params.wf(),
            self.is_reduced(params.p()),
        ensures
            r@ == affine_text(Affine::from_projective_spec(params.p(), *self)),
    {
        Affine::from_projective(self, params).to_text()
    }
}

/// The value of an upper-case hexadecimal digit.
pub open spec fn hex_value(c: char) -> int {
    if '0' <= c && c <= '9' {
        c as int - 48
    } else {
        c as int - 55
    }
}

/// The character is a decimal digit or an upper-case letter from `A` to `F`.
pub open spec fn is_hex_char(c: char) -> bool {
    ('0' <= c && c <= '9') || ('A' <= c && c <= 'F')
}

/// The number that a string of hexadecimal digits writes, most significant first.
pub open spec fn hex_number(s: Seq<char>) -> int
    decreases s.len(),
{
    if s.len() == 0 {
        0
    } else {
        16 * hex_number(s.drop_last()) + hex_value(s.last())
    }
}

proof fn lemma_hex_char(d: u64)
    requires
        d < 16,
    ensures
        hex_value(hex_char(d)) == d,
        is_hex_char(hex_char(d)),
{
}

/// The first `k` digits write the top `4 k` bits of `v`.
proof fn lemma_hex_prefix(v: u64, k: int)
    requires
        1 <= k <= 16,
    ensures
        hex_number(hex_digits(v).subrange(0, k)) == (v >> ((64 - 4 * k) as u64)) as int,
    decreases k,
{
    let s = hex_digits(v);
    let sh: u64 = (64 - 4 * k) as u64;
    let d: u64 = (v >> sh) & 15u64;
    assert(d < 16) by (bit_vector)
        requires
            d == (v >> sh) & 15u64,
    ;
    lemma_hex_char(d);
    assert(s[k - 1] == hex_char(d));
    let t = s.subrange(0, k);
    assert(t.last() == s[k - 1]);
    assert(hex_number(t) == 16 * hex_number(t.drop_last()) + d);
    if k == 1 {
        assert((v >> 60u64) & 15u64 == v >> 60u64) by (bit_vector);
        assert(s.subrange(0, 1).drop_last() =~= Seq::<char>::empty());
    } else {
        lemma_hex_prefix(v, k - 1);
        assert(s.subrange(0, k).drop_last() =~= s.subrange(0, k - 1));
        let sh1: u64 = (sh + 4) as u64;
        assert((v >> sh) == (v >> sh1) * 16 + ((v >> sh) & 15u64)) by (bit_vector)
            requires
                sh <= 56u64,
                sh1 == sh + 4,
        ;
    }
}

/// The sixteen digits of a field element's text write the element.
pub proof fn law_field_text_digits(v: u64)
    ensures
        field_text(v).len() == 22,
        field_text(v).subrange(0, 5) == seq!['F', 'p', '6', '4', '('],
        field_text(v)[21] == ')',
        hex_number(field_text(v).subrange(5, 21)) == v,
        forall|i: int| 5 <= i < 21 ==> is_hex_char(#[trigger] field_text(v)[i]),
{
    let s = hex_digits(v);
    lemma_hex_prefix(v, 16);
    assert(v >> 0u64 == v) by (bit_vector);
    assert(s.subrange(0, 16) =~= s);
    assert(field_text(v).subrange(5, 21) =~= s);
    assert(field_text(v).subrange(0, 5) =~= seq!['F', 'p', '6', '4', '(']);
    assert forall|i: int| 5 <= i < 21 implies is_hex_char(#[trigger] field_text(v)[i]) by {
        assert(field_text(v)[i] == s[i - 5]);
        let sh: u64 = (60 - 4 * (i - 5)) as u64;
        let d: u64 = (v >> sh) & 15u64;
        assert(d < 16) by (bit_vector)
            requires
                d == (v >> sh) & 15u64,
        ;
        lemma_hex_char(d);
    }
}

/// The text of a finite point is `Affine(x=Fp64(X), y=Fp64(Y))` where the sixteen
/// hexadecimal digits `X` write `x` and the sixteen digits `Y` write `y`; the point at
/// infinity is `Affine(Infinity)`.
pub proof fn law_affine_text(a: Affine)
    ensures
        a.infinity ==> affine_text(a) == seq![
            'A', 'f', 'f', 'i', 'n', 'e', '(', 'I', 'n', 'f', 'i', 'n', 'i', 't', 'y', ')'
        ],
        !a.infinity ==> {
            let t = affine_text(a);
            &&& t.len() == 58
            &&& t.subrange(0, 14) == seq!['A', 'f', 'f', 'i', 'n', 'e', '(', 'x', '=', 'F', 'p', '6', '4', '(']
            &&& hex_number(t.subrange(14, 30)) == a.x
            &&& t.subrange(30, 40) == seq![')', ',', ' ', 'y', '=', 'F', 'p', '6', '4', '(']
            &&& hex_number(t.subrange(40, 56)) == a.y
            &&& t.subrange(56, 58) == seq![')', ')']
            &&& forall|i: int| (14 <= i < 30 || 40 <= i < 56) ==> is_hex_char(#[trigger] t[i])
        },
{
    if !a.infinity {
        law_field_text_digits(a.x);
        law_field_text_digits(a.y);
        let t = affine_text(a);
        let fx = field_text(a.x);
        let fy = field_text(a.y);
        assert(t.subrange(14, 30) =~= fx.subrange(5, 21));
        assert(t.subrange(40, 56) =~= fy.subrange(5, 21));
        assert(t.subrange(0, 14) =~= seq!['A', 'f', 'f', 'i', 'n', 'e', '(', 'x', '=', 'F', 'p', '6', '4', '(']);
        assert(t.subrange(30, 40) =~= seq![')', ',', ' ', 'y', '=', 'F', 'p', '6', '4', '(']);
        assert(t.subrange(56, 58) =~= seq![')', ')']);
        assert forall|i: int| (14 <= i < 30 || 40 <= i < 56) implies is_hex_char(#[trigger] t[i]) by {
            if i < 30 {
                assert(t[i] == fx[i - 9]);
            } else {
                assert(t[i] == fy[i - 35]);
            }
        }
    }
}

} // verus!
