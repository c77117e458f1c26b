//! The text of a list of water levels: the numbers separated by `", "`, each
//! written as `num` or `num/den` the way `num_rational` displays a ratio.
use num_rational::Ratio;
use vstd::prelude::*;
use vstd::string::StringExecFns;
use crate::rational::Rat;

verus! {

/// The character of the decimal digit `d`.
pub open spec fn digit_char(d: int) -> char {
    ((d + '0' as int) as u32) as char
}

/// The decimal digits of `n`, without leading zeros.
pub open spec fn nat_text(n: nat) -> Seq<char>
    decreases n,
{
    if n < 10 {
        seq![digit_char(n as int)]
    } else {
        nat_text(n / 10).push(digit_char((n % 10) as int))
    }
}

/// `n` in decimal, with a leading `-` when it is negative.
pub open spec fn int_text(n: int) -> Seq<char> {
    if n < 0 {
        seq!['-'] + nat_text((-n) as nat)
    } else {
        nat_text(n as nat)
    }
}

/// `r` as `num_rational` displays it: the numerator alone when the
/// denominator is one, else `numerator/denominator`.
pub open spec fn ratio_text(r: Rat) -> Seq<char> {
    if r.den == 1 {
        int_text(r.num as int)
    } else {
        int_text(r.num as int) + seq!['/'] + int_text(r.den as int)
    }
}

/// The texts of the levels `l`, separated by `", "`.
pub open spec fn levels_text(l: Seq<Rat>) -> Seq<char>
    decreases l.len(),
{
    if l.len() == 0 {
        Seq::empty()
    } else if l.len() == 1 {
        ratio_text(l[0])
    } else {
        levels_text(l.drop_last()) + seq![',', ' '] + ratio_text(l.last())
    }
}

/// `<Ratio<i64> as Display>::fmt` through `to_string`.  The contract claims
/// the text that the source builds for a positive denominator and no
/// formatting flags: `format!("{}", numer)` or `format!("{}/{}", numer,
/// denom)`, with the sign put back in front by `pad_integral`.
#[verifier::external_body]
fn ratio_to_string(r: Rat) -> (s: String)
    requires
        r.wf(),
    ensures
        s@ == ratio_text(r),
{
    Ratio::new_raw(r.num, r.den).to_string()
}

/// The levels as one line of text, `", "` between two of them.
pub fn format_levels(levels: &Vec<Rat>) -> (s: String)
    requires
        forall|i: int| 0 <= i < levels.len() ==> (#[trigger] levels[i]).wf(),
    ensures
        s@ == levels_text(levels@),
{
    let mut out = String::from_str("");
    let sep = ", ";
    proof {
        reveal_strlit("");
        reveal_strlit(", ");
    }
    let mut i: usize = 0;
    while i < levels.len()
        invariant
            0 <= i <= levels.len(),
            forall|j: int| 0 <= j < levels.len() ==> (#[trigger] levels[j]).wf(),
            sep@ == seq![',', ' '],
            out@ == levels_text(levels@.subrange(0, i as int)),
        decreases levels.len() - i,
    {
        let text = ratio_to_string(levels[i]);
        proof {
            let pre = levels@.subrange(0, i as int);
            let next = levels@.subrange(0, i + 1);
            assert(next.drop_last() =~= pre);
            assert(next.last() == levels@[i as int]);
            if i == 0 {
                assert(next =~= seq![levels@[0]]);
            }
        }
        if i > 0 {
            out.append(sep);
        }
        out.append(text.as_str());
        i = i + 1;
    }
    proof {
        assert(levels@.subrange(0, levels.len() as int) =~= levels@);
    }
    out
}

/// Law: one level is written as its display alone.
pub proof fn lemma_levels_text_single(x: Rat)
    ensures
        levels_text(seq![x]) == ratio_text(x),
{
}

/// Law: the text of two non-empty lists of levels, one after the other, is
/// the text of the first, `", "`, then the text of the second.  With the
/// single case, every level is written once, in order, whatever its value,
/// with `", "` between two neighbours and nowhere else.
pub proof fn lemma_levels_text_concat(a: Seq<Rat>, b: Seq<Rat>)
    requires
        a.len() > 0,
        b.len() > 0,
    ensures
        levels_text(a + b) == levels_text(a) + seq![',', ' '] + levels_text(b),
    decreases b.len(),
{
    let ab = a + b;
    if b.len() == 1 {
        assert(ab.drop_last() =~= a);
        assert(ab.last() == b[0]);
    } else {
        let b1 = b.drop_last();
        lemma_levels_text_concat(a, b1);
        assert(ab.drop_last() =~= a + b1);
        assert(ab.last() == b.last());
        assert(levels_text(b) == levels_text(b1) + seq![',', ' '] + ratio_text(b.last()));
        assert(levels_text(ab) =~= levels_text(a) + seq![',', ' '] + levels_text(b));
    }
}

} // verus!
